//! The call being written, and the functions a file declares, read from the
//! tokens so that a file which does not yet parse still answers.
use super::colours;
use super::colours::closing;
use super::index;
use super::index::{LineIndex, Range};
use super::tokens;
use super::tokens::{find_before, Lexed, Tok};
use super::words::has_word;
use crate::builtin::tables;
use crate::text;
use vstd::prelude::*;

verus! {

// ---- the call the cursor is inside -------------------------------------------------------

/// Walking back from the cursor: the `(` it is inside, and how many commas of
/// that call are before it. A call does not run past the end of a statement.
pub open spec fn call_around(ks: Seq<Tok>, i: nat, depth: nat, argument: nat) -> Option<(nat, nat)>
    decreases i,
{
    if i == 0 {
        None
    } else {
        let t = ks[i - 1];
        let j = (i - 1) as nat;
        if colours::closes(t) {
            call_around(ks, j, depth + 1, argument)
        } else if colours::opens(t) && depth > 0 {
            call_around(ks, j, (depth - 1) as nat, argument)
        } else if t is LParen {
            Some((j, argument))
        } else if t is Comma && depth == 0 {
            call_around(ks, j, depth, argument + 1)
        } else if (t is Semi || t is Fn) && depth == 0 {
            None
        } else {
            call_around(ks, j, depth, argument)
        }
    }
}

fn find_call(ts: &Vec<Lexed>, from: usize) -> (r: Option<(usize, usize)>)
    requires
        from <= ts@.len(),
    ensures
        match r {
            Some((open, argument)) => call_around(tokens::kinds(ts@), from as nat, 0, 0) == Some(
                (open as nat, argument as nat),
            ) && open < from,
            None => call_around(tokens::kinds(ts@), from as nat, 0, 0) is None,
        },
{
    let ghost ks = tokens::kinds(ts@);
    let mut depth: usize = 0;
    let mut argument: usize = 0;
    let mut i: usize = from;
    while i > 0
        invariant
            i <= from <= ts@.len(),
            ks == tokens::kinds(ts@),
            depth <= from - i,
            argument <= from - i,
            call_around(ks, i as nat, depth as nat, argument as nat) == call_around(
                ks,
                from as nat,
                0,
                0,
            ),
        decreases i,
    {
        i = i - 1;
        let t: Tok = ts[i].tok;
        assert(ks[i as int] == t);
        if closing(t) {
            depth = depth + 1;
        } else if colours::opening(t) && depth > 0 {
            depth = depth - 1;
        } else if t == Tok::LParen {
            return Some((i, argument));
        } else if t == Tok::Comma && depth == 0 {
            argument = argument + 1;
        } else if (t == Tok::Semi || t == Tok::Fn) && depth == 0 {
            return None;
        }
    }
    None
}

/// The names of a parameter list, from place `j` to where it ends.
pub open spec fn names_from(ts: Seq<Lexed>, j: nat) -> Seq<Seq<char>>
    decreases ts.len() - j,
{
    if j >= ts.len() {
        Seq::empty()
    } else if ts[j as int].tok is Name {
        seq![ts[j as int].text@] + names_from(ts, j + 1)
    } else if ts[j as int].tok is Comma {
        names_from(ts, j + 1)
    } else {
        Seq::empty()
    }
}

/// Is `fn name(` written at place `i`?
pub open spec fn declares(ts: Seq<Lexed>, name: Seq<char>, i: int) -> bool {
    i + 2 < ts.len() && ts[i].tok is Fn && ts[i + 1].tok is Name && ts[i + 1].text@ == name && ts[i
        + 2].tok is LParen
}

/// The parameters of the first `fn` of a name from place `i` on.
pub open spec fn parameters_from(ts: Seq<Lexed>, name: Seq<char>, i: nat) -> Option<Seq<Seq<char>>>
    decreases ts.len() - i,
{
    if i >= ts.len() {
        None
    } else if declares(ts, name, i as int) {
        Some(names_from(ts, i + 3))
    } else {
        parameters_from(ts, name, i + 1)
    }
}

fn read_names(ts: &Vec<Lexed>, from: usize) -> (r: Vec<String>)
    requires
        from <= ts@.len(),
    ensures
        tables::texts(r@) == names_from(ts@, from as nat),
{
    let mut out: Vec<String> = Vec::new();
    let mut j: usize = from;
    assert(tables::texts(out@) + names_from(ts@, from as nat) =~= names_from(ts@, from as nat));
    while j < ts.len() && (ts[j].tok == Tok::Name || ts[j].tok == Tok::Comma)
        invariant
            from <= j <= ts@.len(),
            tables::texts(out@) + names_from(ts@, j as nat) == names_from(ts@, from as nat),
        decreases ts@.len() - j,
    {
        let ghost before = tables::texts(out@);
        if ts[j].tok == Tok::Name {
            out.push(text::owned(ts[j].text.as_str()));
            assert(tables::texts(out@) =~= before.push(ts@[j as int].text@));
            assert(tables::texts(out@) + names_from(ts@, (j + 1) as nat) =~= before + names_from(
                ts@,
                j as nat,
            ));
        }
        j = j + 1;
    }
    assert(tables::texts(out@) + names_from(ts@, j as nat) =~= tables::texts(out@));
    out
}

/// The parameters of a `fn` written in this file.
pub fn parameters_of(ts: &Vec<Lexed>, name: &str) -> (r: Option<Vec<String>>)
    ensures
        match r {
            Some(ps) => parameters_from(ts@, name@, 0) == Some(tables::texts(ps@)),
            None => parameters_from(ts@, name@, 0) is None,
        },
{
    let n: usize = ts.len();
    let mut i: usize = 0;
    while i < n
        invariant
            i <= n,
            n == ts@.len(),
            parameters_from(ts@, name@, i as nat) == parameters_from(ts@, name@, 0),
        decreases n - i,
    {
        if n - i > 2 && ts[i].tok == Tok::Fn && ts[i + 1].tok == Tok::Name && text::same(
            ts[i + 1].text.as_str(),
            name,
        ) && ts[i + 2].tok == Tok::LParen {
            return Some(read_names(ts, i + 3));
        }
        i = i + 1;
    }
    None
}

/// What is shown while a call is being written: the function as it was
/// declared, and which argument the cursor is on.
pub struct Help {
    pub label: String,
    pub params: Vec<String>,
    /// The parameter to point at, kept within those there are.
    pub active: usize,
    /// How many commas there are before the cursor.
    pub argument: usize,
}

pub ghost struct HelpView {
    pub label: Seq<char>,
    pub params: Seq<Seq<char>>,
    pub active: nat,
    pub argument: nat,
}

impl View for Help {
    type V = HelpView;

    open spec fn view(&self) -> HelpView {
        HelpView {
            label: self.label@,
            params: tables::texts(self.params@),
            active: self.active as nat,
            argument: self.argument as nat,
        }
    }
}

pub open spec fn help_for(callee: Seq<char>, params: Seq<Seq<char>>, argument: nat) -> HelpView {
    let last = if params.len() > 0 {
        (params.len() - 1) as nat
    } else {
        0
    };
    HelpView {
        label: callee + "("@ + tables::joined(params, ", "@) + ")"@,
        params,
        active: if argument < last {
            argument
        } else {
            last
        },
        argument,
    }
}

/// The help for the call a byte is inside, where the function is written in
/// this file.
pub open spec fn help_of(ts: Seq<Lexed>, at: u32) -> Option<HelpView> {
    match tokens::token_before(ts, at, ts.len()) {
        None => None,
        Some(last) => match call_around(tokens::kinds(ts), last + 1, 0, 0) {
            None => None,
            Some((open, argument)) => if open > 0 && ts[open - 1].tok is Name {
                let callee = ts[open - 1].text@;
                match parameters_from(ts, callee, 0) {
                    None => None,
                    Some(params) => Some(help_for(callee, params, argument)),
                }
            } else {
                None
            },
        },
    }
}

pub fn signature_at(ts: &Vec<Lexed>, at: u32) -> (r: Option<Help>)
    ensures
        match r {
            Some(h) => help_of(ts@, at) == Some(h@),
            None => help_of(ts@, at) is None,
        },
{
    let n: usize = ts.len();
    let last: usize = match find_before(ts, at) {
        Some(i) => i,
        None => {
            return None;
        },
    };
    assert(last < n);
    match find_call(ts, last + 1) {
        Some((open, argument)) => {
            if open == 0 || ts[open - 1].tok != Tok::Name {
                return None;
            }
            let callee = ts[open - 1].text.as_str();
            match parameters_of(ts, callee) {
                Some(params) => {
                    let mut label = text::owned(callee);
                    label.append("(");
                    label.append(tables::join(&params, ", ").as_str());
                    label.append(")");
                    let most: usize = if params.len() > 0 {
                        params.len() - 1
                    } else {
                        0
                    };
                    let active: usize = if argument < most {
                        argument
                    } else {
                        most
                    };
                    Some(Help { label, params, active, argument })
                },
                None => None,
            }
        },
        None => None,
    }
}

// ---- the outline -------------------------------------------------------------------------

/// A function of the outline: its name, where its head is written, and where
/// its name is.
pub struct Symbol {
    pub name: String,
    pub range: Range,
    pub selection: Range,
}

pub ghost struct SymbolView {
    pub name: Seq<char>,
    pub range: Range,
    pub selection: Range,
}

impl View for Symbol {
    type V = SymbolView;

    open spec fn view(&self) -> SymbolView {
        SymbolView { name: self.name@, range: self.range, selection: self.selection }
    }
}

pub open spec fn symbols_view(s: Seq<Symbol>) -> Seq<SymbolView> {
    Seq::new(s.len(), |i: int| s[i]@)
}

pub open spec fn range_of(text: Seq<char>, lo: u32, hi: u32) -> Range {
    Range { start: index::position_of(text, lo), end: index::position_of(text, hi) }
}

pub open spec fn names_function(ts: Seq<Lexed>, i: int) -> bool {
    ts[i].tok is Fn && ts[i + 1].tok is Name
}

/// The functions named among the first `n` tokens.
pub open spec fn outline(ts: Seq<Lexed>, text: Seq<char>, n: nat) -> Seq<SymbolView>
    decreases n,
{
    if n < 2 {
        Seq::empty()
    } else {
        let rest = outline(ts, text, (n - 1) as nat);
        if names_function(ts, n - 2) {
            rest.push(
                SymbolView {
                    name: ts[n - 1].text@,
                    range: range_of(text, ts[n - 2].span.lo, ts[n - 1].span.hi),
                    selection: range_of(text, ts[n - 1].span.lo, ts[n - 1].span.hi),
                },
            )
        } else {
            rest
        }
    }
}

/// Do all the tokens begin and end between characters of the text?
pub open spec fn well_placed(ts: Seq<Lexed>, text: Seq<char>) -> bool {
    forall|i: int|
        0 <= i < ts.len() ==> index::on_boundary(text, (#[trigger] ts[i]).span.lo)
            && index::on_boundary(text, ts[i].span.hi)
}

/// The functions in a file, for the outline.
pub fn symbols(ts: &Vec<Lexed>, lines: &LineIndex) -> (r: Vec<Symbol>)
    requires
        lines.wf(),
        well_placed(ts@, lines@),
    ensures
        symbols_view(r@) == outline(ts@, lines@, ts@.len()),
{
    let mut out: Vec<Symbol> = Vec::new();
    let mut n: usize = 0;
    assert(symbols_view(out@) =~= outline(ts@, lines@, 0));
    while n < ts.len()
        invariant
            n <= ts@.len(),
            lines.wf(),
            well_placed(ts@, lines@),
            symbols_view(out@) == outline(ts@, lines@, n as nat),
        decreases ts@.len() - n,
    {
        let ghost before = symbols_view(out@);
        if n > 0 && ts[n - 1].tok == Tok::Fn && ts[n].tok == Tok::Name {
            assert(index::on_boundary(lines@, ts@[n - 1].span.lo));
            assert(index::on_boundary(lines@, ts@[n as int].span.lo));
            let range: Range = lines.range(ts[n - 1].span.lo, ts[n].span.hi);
            let selection: Range = lines.range(ts[n].span.lo, ts[n].span.hi);
            out.push(Symbol { name: text::owned(ts[n].text.as_str()), range, selection });
            assert(symbols_view(out@) =~= before.push(out@[out@.len() - 1]@));
        }
        assert(symbols_view(out@) =~= outline(ts@, lines@, (n + 1) as nat));
        n = n + 1;
    }
    out
}

// ---- names worth offering ----------------------------------------------------------------

/// The names written among the first `n` tokens, once each in the order they
/// first appear: those after a `.` where `dotted`, and those after neither a
/// `.` nor a `::` where not. Those of `taken` are left out.
pub open spec fn names_written(
    ts: Seq<Lexed>,
    taken: Seq<Seq<char>>,
    dotted: bool,
    n: nat,
) -> Seq<Seq<char>>
    decreases n,
{
    if n == 0 {
        Seq::empty()
    } else {
        let rest = names_written(ts, taken, dotted, (n - 1) as nat);
        let name = ts[n - 1].text@;
        if ts[n - 1].tok is Name && placed(ts, dotted, n - 1) && !rest.contains(name) && !taken.contains(name) {
            rest.push(name)
        } else {
            rest
        }
    }
}

pub open spec fn placed(ts: Seq<Lexed>, dotted: bool, i: int) -> bool {
    if dotted {
        i > 0 && ts[i - 1].tok is Dot
    } else {
        i == 0 || !(ts[i - 1].tok is Dot || ts[i - 1].tok is ColonColon)
    }
}

fn collect_names(ts: &Vec<Lexed>, taken: &Vec<String>, dotted: bool) -> (r: Vec<String>)
    ensures
        tables::texts(r@) == names_written(ts@, tables::texts(taken@), dotted, ts@.len()),
{
    let mut out: Vec<String> = Vec::new();
    let mut n: usize = 0;
    assert(tables::texts(out@) =~= Seq::empty());
    while n < ts.len()
        invariant
            n <= ts@.len(),
            tables::texts(out@) == names_written(ts@, tables::texts(taken@), dotted, n as nat),
        decreases ts@.len() - n,
    {
        let ghost before = tables::texts(out@);
        let here: bool = if dotted {
            n > 0 && ts[n - 1].tok == Tok::Dot
        } else {
            n == 0 || !(ts[n - 1].tok == Tok::Dot || ts[n - 1].tok == Tok::ColonColon)
        };
        if ts[n].tok == Tok::Name && here {
            let name = ts[n].text.as_str();
            if !has_word(&out, name) && !has_word(taken, name) {
                out.push(text::owned(name));
                assert(tables::texts(out@) =~= before.push(name@));
            }
        }
        n = n + 1;
    }
    out
}

/// The names this file uses as fields, but for the methods already offered.
pub fn fields_used(ts: &Vec<Lexed>, methods: &Vec<String>) -> (r: Vec<String>)
    ensures
        tables::texts(r@) == names_written(ts@, tables::texts(methods@), true, ts@.len()),
{
    collect_names(ts, methods, true)
}

/// The names this file writes, but for the runtime's own and for those reached
/// through a `.` or a `::`, which are somebody else's fields.
pub fn names_in_scope(ts: &Vec<Lexed>, globals: &Vec<String>) -> (r: Vec<String>)
    ensures
        tables::texts(r@) == names_written(ts@, tables::texts(globals@), false, ts@.len()),
{
    collect_names(ts, globals, false)
}

/// No name is offered twice.
pub proof fn lemma_names_once(ts: Seq<Lexed>, taken: Seq<Seq<char>>, dotted: bool, n: nat)
    ensures
        names_written(ts, taken, dotted, n).no_duplicates(),
    decreases n,
{
    if n > 0 {
        lemma_names_once(ts, taken, dotted, (n - 1) as nat);
        let rest = names_written(ts, taken, dotted, (n - 1) as nat);
        let name = ts[n - 1].text@;
        if !rest.contains(name) {
            let all = rest.push(name);
            assert forall|i: int, j: int|
                0 <= i < all.len() && 0 <= j < all.len() && i != j implies all[i] != all[j] by {
                if i < rest.len() {
                    assert(rest.contains(rest[i]));
                }
                if j < rest.len() {
                    assert(rest.contains(rest[j]));
                }
            }
        }
    }
}

// ---- what help says -------------------------------------------------------------------------

/// The commas among some tokens.
pub open spec fn commas(ks: Seq<Tok>, from: nat, to: nat) -> nat
    decreases to,
{
    if to <= from {
        0
    } else {
        commas(ks, from, (to - 1) as nat) + if ks[to - 1] is Comma {
            1nat
        } else {
            0
        }
    }
}

/// Does this token neither open nor close anything, nor end a statement?
pub open spec fn inside_arguments(t: Tok) -> bool {
    !colours::opens(t) && !colours::closes(t) && !(t is Semi) && !(t is Fn)
}

/// A call whose arguments are being written is the one whose bracket is open, and the
/// argument is counted by the commas since then.
pub proof fn lemma_arguments_counted(ks: Seq<Tok>, open: nat, i: nat, argument: nat)
    requires
        open < i <= ks.len(),
        ks[open as int] is LParen,
        forall|j: int| open < j < i ==> inside_arguments(#[trigger] ks[j]),
    ensures
        call_around(ks, i, 0, argument) == Some((open, argument + commas(ks, open + 1, i))),
    decreases i,
{
    if i > open + 1 {
        lemma_arguments_counted(
            ks,
            open,
            (i - 1) as nat,
            if ks[i - 1] is Comma {
                argument + 1
            } else {
                argument
            },
        );
    }
}

/// What is in brackets of its own is one argument, with however many commas in it.
pub proof fn lemma_brackets_are_one_argument(
    ks: Seq<Tok>,
    open: nat,
    i: nat,
    depth: nat,
    argument: nat,
)
    requires
        open + 1 < i <= ks.len(),
        colours::opens(ks[open as int]),
        colours::closes(ks[i - 1]),
        forall|j: int| open < j < i - 1 ==> !colours::opens(#[trigger] ks[j]) && !colours::closes(
            ks[j],
        ),
    ensures
        call_around(ks, i, depth, argument) == call_around(ks, open, depth, argument),
{
    lemma_through_brackets(ks, open, (i - 1) as nat, depth, argument);
}

proof fn lemma_through_brackets(ks: Seq<Tok>, open: nat, i: nat, depth: nat, argument: nat)
    requires
        open < i <= ks.len(),
        colours::opens(ks[open as int]),
        forall|j: int| open < j < i ==> !colours::opens(#[trigger] ks[j]) && !colours::closes(
            ks[j],
        ),
    ensures
        call_around(ks, i, depth + 1, argument) == call_around(ks, open, depth, argument),
    decreases i,
{
    if i > open + 1 {
        lemma_through_brackets(ks, open, (i - 1) as nat, depth, argument);
    }
}

/// The parameter that is pointed at is the one being written, and where there are more
/// arguments than parameters, the last.
pub proof fn lemma_active_parameter(callee: Seq<char>, params: Seq<Seq<char>>, argument: nat)
    ensures
        help_for(callee, params, argument).params == params,
        argument < params.len() ==> help_for(callee, params, argument).active == argument,
        argument >= params.len() > 0 ==> help_for(callee, params, argument).active + 1
            == params.len(),
{
}

/// The parameters of a function are the names between its brackets, in order.
pub proof fn lemma_parameters_read(ts: Seq<Lexed>, j: nat)
    requires
        j + 1 < ts.len(),
    ensures
        ts[j as int].tok is RParen ==> names_from(ts, j).len() == 0,
        ts[j as int].tok is Name && ts[j as int + 1].tok is RParen ==> names_from(ts, j) == seq![
            ts[j as int].text@,
        ],
        ts[j as int].tok is Name && ts[j as int + 1].tok is Comma ==> names_from(ts, j) == seq![
            ts[j as int].text@,
        ] + names_from(ts, j + 2),
{
    if ts[j as int].tok is Name {
        if ts[j as int + 1].tok is Comma {
            assert(names_from(ts, j + 1) == names_from(ts, j + 2));
        } else if ts[j as int + 1].tok is RParen {
            assert(names_from(ts, j + 1) =~= Seq::empty());
            assert(names_from(ts, j) =~= seq![ts[j as int].text@]);
        }
    }
}

/// Is there a function of this name among the first `n` tokens?
pub open spec fn named_before(ts: Seq<Lexed>, n: nat, name: Seq<char>) -> bool {
    exists|i: int|
        0 <= i && i + 1 < n && #[trigger] names_function(ts, i) && ts[i + 1].text@ == name
}

/// Every `fn` that is followed by a name is in the outline, under that name and where
/// it stands, and nothing else is.
pub proof fn lemma_outline(ts: Seq<Lexed>, text: Seq<char>, n: nat)
    requires
        n <= ts.len(),
    ensures
        forall|i: int|
            0 <= i && i + 1 < n && #[trigger] names_function(ts, i) ==> exists|k: int|
                0 <= k < outline(ts, text, n).len() && (#[trigger] outline(ts, text, n)[k]).name
                    == ts[i + 1].text@ && outline(ts, text, n)[k].selection == range_of(
                    text,
                    ts[i + 1].span.lo,
                    ts[i + 1].span.hi,
                ) && outline(ts, text, n)[k].range == range_of(
                    text,
                    ts[i].span.lo,
                    ts[i + 1].span.hi,
                ),
        forall|k: int|
            0 <= k < outline(ts, text, n).len() ==> named_before(
                ts,
                n,
                (#[trigger] outline(ts, text, n)[k]).name,
            ),
    decreases n,
{
    if n >= 2 {
        let m = (n - 1) as nat;
        lemma_outline(ts, text, m);
        let rest = outline(ts, text, m);
        let all = outline(ts, text, n);
        assert forall|i: int| 0 <= i && i + 1 < n && #[trigger] names_function(ts, i) implies exists|
            k: int,
        |
            0 <= k < all.len() && (#[trigger] all[k]).name == ts[i + 1].text@ && all[k].selection
                == range_of(text, ts[i + 1].span.lo, ts[i + 1].span.hi) && all[k].range == range_of(
                text,
                ts[i].span.lo,
                ts[i + 1].span.hi,
            ) by {
            if i == n - 2 {
                let k = all.len() - 1;
                assert(all[k].name == ts[i + 1].text@);
            } else {
                let k = choose|k: int|
                    0 <= k < rest.len() && (#[trigger] rest[k]).name == ts[i + 1].text@
                        && rest[k].selection == range_of(
                        text,
                        ts[i + 1].span.lo,
                        ts[i + 1].span.hi,
                    ) && rest[k].range == range_of(text, ts[i].span.lo, ts[i + 1].span.hi);
                assert(all[k] == rest[k]);
            }
        }
        assert forall|k: int| 0 <= k < all.len() implies named_before(
            ts,
            n,
            (#[trigger] all[k]).name,
        ) by {
            if k < rest.len() {
                assert(all[k] == rest[k]);
                assert(named_before(ts, m, rest[k].name));
                let i = choose|i: int|
                    0 <= i && i + 1 < m && #[trigger] names_function(ts, i) && ts[i + 1].text@
                        == rest[k].name;
                assert(names_function(ts, i));
            } else {
                assert(names_function(ts, n - 2));
            }
        }
    }
}

} // verus!
