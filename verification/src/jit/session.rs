//! One session of the compiler: its settings, its tally, and how what it makes
//! is named, kept and put together.
use super::unit;
use super::unit::{LoopUnit, LoopView, SelfRef, Unit, UnitView};
use crate::ast::{FuncDef, Stat};
use crate::hash;
use crate::text;
use vstd::prelude::*;

verus! {

/// The compiler's settings, and what it has done.
pub struct Jit {
    pub enabled: bool,
    /// How often a function is called before it is compiled.
    pub threshold: u32,
    /// Show what is generated.
    pub dump: bool,
    /// Reuse what an earlier run left behind.
    pub cache: bool,
    pub compiled: usize,
    pub bailed: usize,
    pub cache_hits: usize,
    pub last_error: Option<String>,
    /// How many loops were named.
    pub generation: u64,
}

pub open spec fn more_by_one(n: usize) -> usize {
    if n == usize::MAX {
        n
    } else {
        (n + 1) as usize
    }
}

fn up(n: usize) -> (r: usize)
    ensures
        r == more_by_one(n),
{
    if n == usize::MAX {
        n
    } else {
        n + 1
    }
}

pub open spec fn text_of(v: Option<&str>) -> Option<Seq<char>> {
    match v {
        Some(s) => Some(s@),
        None => None,
    }
}

/// On unless it was said to be off.
pub open spec fn says_on(v: Option<Seq<char>>) -> bool {
    match v {
        Some(s) => s != "0"@ && s != "off"@,
        None => true,
    }
}

/// A switch that is set to anything but zero, or left at its default.
pub open spec fn switch(v: Option<Seq<char>>, default: bool) -> bool {
    match v {
        Some(s) => s != "0"@,
        None => default,
    }
}

/// A number, unless none was given or it makes no sense.
pub open spec fn number_or(v: Option<Seq<char>>, max: nat, default: nat) -> nat {
    match v {
        Some(s) => match text::spelled(s, max) {
            Some(n) => n,
            None => default,
        },
        None => default,
    }
}

fn is_set(v: Option<&str>, default: bool) -> (r: bool)
    ensures
        r == switch(text_of(v), default),
{
    match v {
        Some(s) => !text::same(s, "0"),
        None => default,
    }
}

fn number(v: Option<&str>, max: u64, default: u64) -> (r: u64)
    ensures
        r == number_or(text_of(v), max as nat, default as nat),
{
    match v {
        Some(s) => match text::parse_number(s, max) {
            Some(n) => n,
            None => default,
        },
        None => default,
    }
}

/// How much the cache may hold, in bytes, if that can be counted.
pub open spec fn cap_of(v: Option<Seq<char>>) -> Option<u64> {
    let mb = number_or(v, u64::MAX as nat, 128);
    if mb * 1048576 <= u64::MAX {
        Some((mb * 1048576) as u64)
    } else {
        None
    }
}

/// The cache's limit from a number of megabytes.
pub fn cache_cap(mb: Option<&str>) -> (r: Option<u64>)
    ensures
        r == cap_of(text_of(mb)),
{
    let n: u64 = number(mb, u64::MAX, 128);
    if n <= u64::MAX / 1048576 {
        Some(n * 1048576)
    } else {
        None
    }
}

/// One more thing could not be compiled, which is noted; all else is as it was.
pub open spec fn failed_with(was: Jit, what: Seq<char>, why: Seq<char>, now: Jit) -> bool {
    &&& now.last_error matches Some(e) && e@ == what + ": "@ + why
    &&& now == Jit {
        bailed: more_by_one(was.bailed),
        last_error: now.last_error,
        ..was
    }
}

impl Jit {
    /// A session with the settings some variables give.
    pub fn new(on: Option<&str>, threshold: Option<&str>, dump: Option<&str>, cache: Option<&str>) -> (r:
        Jit)
        ensures
            r.enabled == says_on(text_of(on)),
            r.threshold == number_or(text_of(threshold), u32::MAX as nat, 50),
            r.dump == switch(text_of(dump), false),
            r.cache == switch(text_of(cache), true),
            r.compiled == 0,
            r.bailed == 0,
            r.cache_hits == 0,
            r.last_error is None,
            r.generation == 0,
    {
        let enabled: bool = match on {
            Some(s) => !text::same(s, "0") && !text::same(s, "off"),
            None => true,
        };
        Jit {
            enabled,
            threshold: number(threshold, u32::MAX as u64, 50) as u32,
            dump: is_set(dump, false),
            cache: is_set(cache, true),
            compiled: 0,
            bailed: 0,
            cache_hits: 0,
            last_error: None,
            generation: 0,
        }
    }

    /// Something was compiled.
    pub fn built(&mut self)
        ensures
            *final(self) == (Jit { compiled: more_by_one(old(self).compiled), ..*old(self) }),
    {
        self.compiled = up(self.compiled);
    }

    /// Something could not be compiled.
    pub fn failed(&mut self, what: &str, why: &str)
        ensures
            failed_with(*old(self), what@, why@, *final(self)),
    {
        self.bailed = up(self.bailed);
        let mut e = text::owned(what);
        e.append(": ");
        e.append(why);
        self.last_error = Some(e);
    }

    /// Lower one resolved function, or explain why it cannot be compiled.
    pub fn compile(&mut self, def: &FuncDef, self_ref: SelfRef) -> (r: Result<Unit, String>)
        ensures
            match r {
                Ok(u) => {
                    &&& unit::unit_of(
                        *def,
                        self_ref.upval,
                        unit::name_of(self_ref.global),
                        self_ref.compiled_globals@,
                    ) == Ok::<UnitView, Seq<char>>(u@)
                    &&& *final(self) == *old(self)
                },
                Err(e) => {
                    &&& unit::unit_of(
                        *def,
                        self_ref.upval,
                        unit::name_of(self_ref.global),
                        self_ref.compiled_globals@,
                    ) == Err::<UnitView, Seq<char>>(e@)
                    &&& failed_with(*old(self), def.name@, e@, *final(self))
                },
            },
    {
        match unit::lower_unit(def, self_ref) {
            Ok(u) => Ok(u),
            Err(e) => {
                self.failed(def.name.as_str(), e.as_str());
                Err(e)
            },
        }
    }

    /// Lower one hot loop into code over the locals it touches, or explain why
    /// it cannot be compiled.
    pub fn compile_loop(&mut self, st: &Stat, self_ref: SelfRef) -> (r: Result<LoopUnit, String>)
        ensures
            match r {
                Ok(u) => {
                    &&& unit::loop_of(
                        *st,
                        self_ref.upval,
                        unit::name_of(self_ref.global),
                        self_ref.compiled_globals@,
                    ) == Ok::<LoopView, Seq<char>>(u@)
                    &&& *final(self) == *old(self)
                },
                Err(e) => {
                    &&& unit::loop_of(
                        *st,
                        self_ref.upval,
                        unit::name_of(self_ref.global),
                        self_ref.compiled_globals@,
                    ) == Err::<LoopView, Seq<char>>(e@)
                    &&& failed_with(*old(self), "loop"@, e@, *final(self))
                },
            },
    {
        match unit::lower_loop(st, self_ref) {
            Ok(u) => Ok(u),
            Err(e) => {
                self.failed("loop", e.as_str());
                Err(e)
            },
        }
    }

    /// A name no loop of this session has had.
    pub fn loop_symbol(&mut self) -> (r: String)
        requires
            old(self).generation < u64::MAX,
        ensures
            *final(self) == (Jit {
                generation: (old(self).generation + 1) as u64,
                ..*old(self)
            }),
            r@ == "rua_loop_"@ + text::decimal((old(self).generation + 1) as nat),
            super::source::is_symbol(r@),
    {
        self.generation = self.generation + 1;
        proof {
            reveal_strlit("rua_loop_");
            super::source::lemma_numbered("rua_loop_"@, self.generation as nat);
        }
        let mut s = text::owned("rua_loop_");
        text::push_decimal(&mut s, self.generation);
        s
    }
}

/// The entry point of a function.
pub fn function_symbol(id: usize) -> (r: String)
    ensures
        r@ == "rua_jit_"@ + text::decimal(id as nat),
        super::source::is_symbol(r@),
{
    proof {
        reveal_strlit("rua_jit_");
        super::source::lemma_numbered("rua_jit_"@, id as nat);
    }
    let mut s = text::owned("rua_jit_");
    text::push_decimal(&mut s, id as u64);
    s
}

/// What a generated source is called: its stem, and a hash of what is in it,
/// so that a different source is a different file.
pub fn file_stem(stem: &str, src: &str) -> (r: String)
    ensures
        r@ == stem@ + "_"@ + text::hex_padded(
            hash::fnv(vstd::utf8::encode_utf8(src@)) as nat,
            16,
        ),
{
    let mut s = text::owned(stem);
    s.append("_");
    text::push_hex_padded(&mut s, hash::source_hash(src), 16);
    s
}

// ---- putting generated sources together --------------------------------------------------

/// The place of a generated entry point, its attribute included.
pub open spec fn item_place(src: Seq<char>, symbol: Seq<char>) -> nat {
    let needle = "pub unsafe extern \"C\" fn "@ + symbol + "("@;
    let at = match text::first_at(src, needle, 0) {
        Some(i) => i,
        None => src.len(),
    };
    match text::last_at(src.take(at as int), "#[no_mangle]"@, at) {
        Some(i) => i,
        None => at,
    }
}

/// The place of an entry point is inside its file.
pub proof fn lemma_item_place(src: Seq<char>, symbol: Seq<char>)
    ensures
        item_place(src, symbol) <= src.len(),
{
    let needle = "pub unsafe extern \"C\" fn "@ + symbol + "("@;
    text::lemma_first_at(src, needle, 0);
    let at = match text::first_at(src, needle, 0) {
        Some(i) => i,
        None => src.len(),
    };
    text::lemma_last_at(src.take(at as int), "#[no_mangle]"@, at);
}

fn item_start(cs: &Vec<char>, symbol: &str) -> (r: usize)
    ensures
        r == item_place(cs@, symbol@),
        r <= cs@.len(),
{
    let mut needle = text::owned("pub unsafe extern \"C\" fn ");
    needle.append(symbol);
    needle.append("(");
    let n = text::chars_of(needle.as_str());
    let at: usize = match text::find_from(cs, &n, 0) {
        Some(i) => i,
        None => cs.len(),
    };
    let mut front: Vec<char> = Vec::new();
    let mut i: usize = 0;
    while i < at
        invariant
            i <= at <= cs@.len(),
            front@ == cs@.take(i as int),
        decreases at - i,
    {
        front.push(cs[i]);
        assert(front@ =~= cs@.take(i as int + 1));
        i = i + 1;
    }
    let mark = text::chars_of("#[no_mangle]");
    match text::find_last(&front, &mark, at) {
        Some(i) => i,
        None => at,
    }
}

/// A generated file's entry point, without what every such file begins with.
pub fn item_of(src: &str, symbol: &str) -> (r: String)
    ensures
        r@ == src@.skip(item_place(src@, symbol@) as int),
{
    let cs = text::chars_of(src);
    let at: usize = item_start(&cs, symbol);
    let r = text::string_of(&cs, at, cs.len());
    assert(r@ =~= src@.skip(at as int));
    r
}

/// Put text just above a generated file's entry point.
pub fn splice_inlined(src: &str, symbol: &str, extra: &str) -> (r: String)
    ensures
        ({
            let at = item_place(src@, symbol@) as int;
            r@ == src@.take(at) + extra@ + src@.skip(at)
        }),
{
    let cs = text::chars_of(src);
    let at: usize = item_start(&cs, symbol);
    let mut out = text::string_of(&cs, 0, at);
    out.append(extra);
    let rest = text::string_of(&cs, at, cs.len());
    out.append(rest.as_str());
    assert(out@ =~= src@.take(at as int) + extra@ + src@.skip(at as int));
    out
}

/// What is put in front leaves the entry point as it was.
pub proof fn lemma_splice_keeps(src: Seq<char>, at: int, extra: Seq<char>)
    requires
        0 <= at <= src.len(),
    ensures
        (src.take(at) + extra + src.skip(at)).skip(at + extra.len() as int) == src.skip(at),
        (src.take(at) + extra + src.skip(at)).take(at) == src.take(at),
{
    let all = src.take(at) + extra + src.skip(at);
    assert(all.skip(at + extra.len() as int) =~= src.skip(at));
    assert(all.take(at) =~= src.take(at));
}

// ---- keeping the cache small -------------------------------------------------------------

/// Is file `a` to go before file `b`? The older goes first, and of two as old
/// the one found first.
pub open spec fn goes_first(times: Seq<u64>, a: usize, b: usize) -> bool {
    times[a as int] < times[b as int] || (times[a as int] == times[b as int] && a < b)
}

pub open spec fn in_order(times: Seq<u64>, order: Seq<usize>) -> bool {
    forall|i: int, j: int|
        0 <= i < j < order.len() ==> goes_first(times, #[trigger] order[i], #[trigger] order[j])
}

/// The files in the order they go.
pub fn prune_order(times: &Vec<u64>) -> (order: Vec<usize>)
    ensures
        in_order(times@, order@),
        order@.len() == times@.len(),
        forall|k: usize| #[trigger] order@.contains(k) == (k < times@.len()),
{
    let mut order: Vec<usize> = Vec::new();
    let mut i: usize = 0;
    while i < times.len()
        invariant
            i <= times@.len(),
            order@.len() == i,
            in_order(times@, order@),
            forall|k: usize| #[trigger] order@.contains(k) == (k < i),
        decreases times@.len() - i,
    {
        let mut at: usize = order.len();
        assert forall|k: int| 0 <= k < order@.len() implies #[trigger] order@[k] < i by {
            assert(order@.contains(order@[k]));
        }
        while at > 0 && times[order[at - 1]] > times[i]
            invariant
                i < times@.len(),
                at <= order@.len() == i,
                in_order(times@, order@),
                forall|k: usize| #[trigger] order@.contains(k) == (k < i),
                forall|k: int| at <= k < order@.len() ==> times@[#[trigger] order@[k] as int]
                    > times@[i as int],
                forall|k: int| 0 <= k < order@.len() ==> #[trigger] order@[k] < i,
            decreases at,
        {
            at = at - 1;
        }
        let ghost before = order@;
        assert forall|k: int| 0 <= k < before.len() implies #[trigger] before[k] < i by {
            assert(before.contains(before[k]));
        }
        order.insert(at, i);
        assert(order@ =~= before.insert(at as int, i));
        assert forall|a: int, b: int| 0 <= a < b < order@.len() implies goes_first(
            times@,
            #[trigger] order@[a],
            #[trigger] order@[b],
        ) by {
            let x = if a < at {
                a
            } else {
                a - 1
            };
            let y = if b < at {
                b
            } else {
                b - 1
            };
            if a == at {
                assert(order@[b] == before[y]);
            } else if b == at {
                assert(order@[a] == before[x]);
                if at > 0 && x < at - 1 {
                    assert(goes_first(times@, before[x], before[at - 1]));
                }
            } else {
                assert(order@[a] == before[x]);
                assert(order@[b] == before[y]);
                assert(goes_first(times@, before[x], before[y]));
            }
        }
        assert forall|k: usize| #[trigger] order@.contains(k) == (k < i + 1) by {
            if before.contains(k) {
                let j = choose|j: int| 0 <= j < before.len() && before[j] == k;
                if j < at {
                    assert(order@[j] == k);
                } else {
                    assert(order@[j + 1] == k);
                }
            }
            if k == i {
                assert(order@[at as int] == k);
            }
            if order@.contains(k) && k != i {
                let j = choose|j: int| 0 <= j < order@.len() && order@[j] == k;
                if j < at {
                    assert(before[j] == k);
                } else {
                    assert(before[j - 1] == k);
                }
            }
        }
        i = i + 1;
    }
    order
}

/// Is it time to take files away, and how much may stay when it is done? It
/// stops well under the limit, so that the next file does not start it again.
pub fn prune_target(total: u64, cap: u64) -> (r: Option<u64>)
    ensures
        r == (if total <= cap {
            None::<u64>
        } else {
            Some((cap / 2) as u64)
        }),
{
    if total <= cap {
        None
    } else {
        Some(cap / 2)
    }
}

} // verus!
