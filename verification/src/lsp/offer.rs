//! What is worth offering where the cursor is.
use super::calls;
use super::facts;
use super::facts::Types;
use super::hover::Provided;
use super::names::Occurrence;
use super::say;
use super::tokens::Lexed;
use super::types;
use super::words;
use crate::builtin::tables;
use crate::text;
use vstd::prelude::*;

verus! {

#[derive(Clone, Copy, Debug, PartialEq, Eq, Structural)]
pub enum ItemKind {
    TypeParameter,
    Struct,
    Field,
    Value,
    Function,
    Method,
    Keyword,
    Module,
    Variable,
    Folder,
}

/// One thing that could be written.
pub struct Item {
    pub label: String,
    pub kind: ItemKind,
    pub detail: String,
    /// What writing it writes, where that is more than the label.
    pub insert: Option<String>,
    /// Where it goes in the list, where that is not by its label.
    pub sort: Option<String>,
    pub preselect: bool,
}

pub ghost struct ItemView {
    pub label: Seq<char>,
    pub kind: ItemKind,
    pub detail: Seq<char>,
    pub insert: Option<Seq<char>>,
    pub sort: Option<Seq<char>>,
    pub preselect: bool,
}

pub open spec fn maybe(o: Option<String>) -> Option<Seq<char>> {
    match o {
        Some(s) => Some(s@),
        None => None,
    }
}

impl View for Item {
    type V = ItemView;

    open spec fn view(&self) -> ItemView {
        ItemView {
            label: self.label@,
            kind: self.kind,
            detail: self.detail@,
            insert: maybe(self.insert),
            sort: maybe(self.sort),
            preselect: self.preselect,
        }
    }
}

pub open spec fn items_view(s: Seq<Item>) -> Seq<ItemView> {
    Seq::new(s.len(), |i: int| s[i]@)
}

pub open spec fn plain(label: Seq<char>, kind: ItemKind, detail: Seq<char>) -> ItemView {
    ItemView { label, kind, detail, insert: None, sort: None, preselect: false }
}

fn item(label: &str, kind: ItemKind, detail: &str) -> (r: Item)
    ensures
        r@ == plain(label@, kind, detail@),
{
    Item {
        label: text::owned(label),
        kind,
        detail: text::owned(detail),
        insert: None,
        sort: None,
        preselect: false,
    }
}

/// A name each, all of one kind.
pub open spec fn all_plain(names: Seq<Seq<char>>, kind: ItemKind, detail: Seq<char>) -> Seq<
    ItemView,
> {
    Seq::new(names.len(), |i: int| plain(names[i], kind, detail))
}

fn add_plain(names: &Vec<String>, kind: ItemKind, detail: &str, out: &mut Vec<Item>)
    ensures
        items_view(final(out)@) == items_view(old(out)@) + all_plain(
            tables::texts(names@),
            kind,
            detail@,
        ),
{
    let ghost want = all_plain(tables::texts(names@), kind, detail@);
    let ghost start = items_view(out@);
    let mut i: usize = 0;
    assert(items_view(out@) =~= start + want.take(0));
    while i < names.len()
        invariant
            i <= names@.len(),
            want == all_plain(tables::texts(names@), kind, detail@),
            items_view(out@) == start + want.take(i as int),
        decreases names@.len() - i,
    {
        let ghost before = items_view(out@);
        out.push(item(names[i].as_str(), kind, detail));
        assert(items_view(out@) =~= before.push(want[i as int]));
        assert(items_view(out@) =~= start + want.take(i as int + 1));
        i = i + 1;
    }
    assert(want.take(want.len() as int) =~= want);
}

// ---- types and fields --------------------------------------------------------------------

pub open spec fn alias_item(fs: Seq<facts::FactView>, name: Seq<char>) -> ItemView {
    plain(
        name,
        ItemKind::Struct,
        match facts::stands_for(fs, name) {
            Some(t) => say::shown(t),
            None => Seq::empty(),
        },
    )
}

/// Where a type is written, only types make sense: those that need no
/// declaring, and this file's own in order.
pub open spec fn types_offered(fs: Seq<facts::FactView>) -> Seq<ItemView> {
    let own = words::sorted_words(facts::names_given(fs));
    all_plain(words::builtin_type_list(), ItemKind::TypeParameter, "built in"@) + Seq::new(
        own.len(),
        |i: int| alias_item(fs, own[i]),
    )
}

pub fn offer_types(known: &Types) -> (r: Vec<Item>)
    ensures
        items_view(r@) == types_offered(known@),
{
    let mut out: Vec<Item> = Vec::new();
    let builtin = words::builtin_types();
    add_plain(&builtin, ItemKind::TypeParameter, "built in", &mut out);
    let given = known.alias_names();
    let own = words::sorted(&given);
    let ghost names = tables::texts(own@);
    let ghost want = Seq::new(names.len(), |i: int| alias_item(known@, names[i]));
    let ghost start = items_view(out@);
    let mut i: usize = 0;
    assert(items_view(out@) =~= start + want.take(0));
    while i < own.len()
        invariant
            i <= own@.len(),
            names == tables::texts(own@),
            want == Seq::new(names.len(), |k: int| alias_item(known@, names[k])),
            items_view(out@) == start + want.take(i as int),
        decreases own@.len() - i,
    {
        let ghost before = items_view(out@);
        let detail: String = match known.alias(own[i].as_str()) {
            Some(t) => types::text_of(t),
            None => String::new(),
        };
        assert(detail@ =~= alias_item(known@, names[i as int]).detail);
        out.push(item(own[i].as_str(), ItemKind::Struct, detail.as_str()));
        assert(items_view(out@) =~= before.push(want[i as int]));
        assert(items_view(out@) =~= start + want.take(i as int + 1));
        i = i + 1;
    }
    assert(want.take(want.len() as int) =~= want);
    assert(items_view(out@) =~= types_offered(known@));
    out
}

/// Writing the key is writing `name: `.
pub open spec fn field_item(f: (crate::ast::Name, crate::ast::Type)) -> ItemView {
    ItemView {
        label: f.0.text@,
        kind: ItemKind::Field,
        detail: say::shown(f.1),
        insert: Some(f.0.text@ + ": "@),
        sort: None,
        preselect: false,
    }
}

/// The fields a shape says it has, in the order it declares them.
pub open spec fn fields_offered(fs: Seq<facts::FactView>, shape: Seq<char>) -> Seq<ItemView> {
    match facts::stands_for(fs, shape) {
        Some(t) => match facts::resolved(fs, t) {
            Some(crate::ast::Type::Record(fields, _)) => Seq::new(
                fields@.len(),
                |i: int| field_item(fields@[i]),
            ),
            _ => Seq::empty(),
        },
        None => Seq::empty(),
    }
}

pub fn offer_fields(known: &Types, shape: &str) -> (r: Vec<Item>)
    ensures
        items_view(r@) == fields_offered(known@, shape@),
{
    let mut out: Vec<Item> = Vec::new();
    assert(items_view(out@) =~= Seq::empty());
    match known.alias(shape) {
        Some(t) => match known.fields(t) {
            Some(fields) => {
                let ghost want = Seq::new(fields@.len(), |i: int| field_item(fields@[i]));
                let mut i: usize = 0;
                assert(items_view(out@) =~= want.take(0));
                while i < fields.len()
                    invariant
                        i <= fields@.len(),
                        want == Seq::new(fields@.len(), |k: int| field_item(fields@[k])),
                        items_view(out@) == want.take(i as int),
                    decreases fields@.len() - i,
                {
                    let ghost before = items_view(out@);
                    let detail = types::text_of(&fields[i].1);
                    let mut it = item(fields[i].0.text.as_str(), ItemKind::Field, detail.as_str());
                    let mut key = text::owned(fields[i].0.text.as_str());
                    key.append(": ");
                    it.insert = Some(key);
                    assert(it@ == want[i as int]);
                    out.push(it);
                    assert(items_view(out@) =~= before.push(want[i as int]));
                    assert(items_view(out@) =~= want.take(i as int + 1));
                    i = i + 1;
                }
                assert(items_view(out@) =~= want);
                out
            },
            None => out,
        },
        None => out,
    }
}

// ---- an argument -------------------------------------------------------------------------

/// What an argument is for: which it is, of what, and what it wants, followed
/// down to what that stands for.
pub open spec fn argument_said(
    fs: Seq<facts::FactView>,
    callee: Seq<char>,
    params: Seq<crate::ast::Name>,
    ret: Option<crate::ast::Type>,
    i: usize,
) -> Seq<char> {
    let head = words::ordinal_word(i) + " of "@ + facts::label_of(callee, params, ret);
    match params[i as int].ty {
        Some(t) => {
            let full = types::type_text(facts::filled(fs, *t));
            if full == say::shown(*t) {
                head + " — "@ + say::shown(*t)
            } else {
                head + " — "@ + say::shown(*t) + " = "@ + full
            }
        },
        None => head,
    }
}

pub open spec fn argument_offered(fs: Seq<facts::FactView>, callee: Seq<char>, i: usize) -> Option<
    ItemView,
> {
    match facts::function_of(fs, callee, 0) {
        Some((params, ret)) => if i < params@.len() {
            Some(
                ItemView {
                    label: params@[i as int].text@,
                    kind: ItemKind::Value,
                    detail: argument_said(fs, callee, params@, ret, i),
                    insert: None,
                    sort: Some("0"@ + params@[i as int].text@),
                    preselect: true,
                },
            )
        } else {
            None
        },
        None => None,
    }
}

/// The parameter being written, said before anything else.
pub fn offer_argument(known: &Types, callee: &str, i: usize) -> (r: Option<Item>)
    ensures
        match r {
            Some(it) => argument_offered(known@, callee@, i) == Some(it@),
            None => argument_offered(known@, callee@, i) is None,
        },
{
    match known.function(callee) {
        Some(sig) => {
            if i >= sig.params.len() {
                return None;
            }
            let mut detail = text::owned(words::ordinal(i));
            detail.append(" of ");
            detail.append(sig.label().as_str());
            match &sig.params[i].ty {
                Some(t) => {
                    let short = types::text_of(t);
                    let filled = known.instantiate(t);
                    let full = types::text_of(&filled);
                    detail.append(" — ");
                    detail.append(short.as_str());
                    if !text::same(full.as_str(), short.as_str()) {
                        detail.append(" = ");
                        detail.append(full.as_str());
                    }
                },
                None => {},
            }
            assert(detail@ =~= argument_said(known@, callee@, sig.params@, *sig.ret, i));
            let label = sig.params[i].text.as_str();
            let mut it = item(label, ItemKind::Value, detail.as_str());
            let mut first = text::owned("0");
            first.append(label);
            it.sort = Some(first);
            it.preselect = true;
            Some(it)
        },
        None => None,
    }
}

// ---- names -------------------------------------------------------------------------------

/// The names in a module, in order.
pub open spec fn members_offered(module: Seq<char>, members: Seq<Seq<char>>) -> Seq<ItemView> {
    all_plain(words::sorted_words(members), ItemKind::Function, module)
}

pub fn offer_members(module: &str, members: &Vec<String>) -> (r: Vec<Item>)
    ensures
        items_view(r@) == members_offered(module@, tables::texts(members@)),
{
    let mut out: Vec<Item> = Vec::new();
    let ordered = words::sorted(members);
    add_plain(&ordered, ItemKind::Function, module, &mut out);
    assert(items_view(out@) =~= members_offered(module@, tables::texts(members@)));
    out
}

/// Those of some names that are not among others, nor earlier among them.
pub open spec fn fresh(names: Seq<Seq<char>>, seen: Seq<Seq<char>>) -> Seq<Seq<char>>
    decreases names.len(),
{
    if names.len() == 0 {
        Seq::empty()
    } else {
        let rest = fresh(names.drop_last(), seen);
        if (seen + rest).contains(names.last()) {
            rest
        } else {
            rest.push(names.last())
        }
    }
}

fn add_fresh(names: &Vec<String>, kind: ItemKind, detail: &str, seen: &mut Vec<String>, out: &mut Vec<Item>)
    ensures
        tables::texts(final(seen)@) == tables::texts(old(seen)@) + fresh(
            tables::texts(names@),
            tables::texts(old(seen)@),
        ),
        items_view(final(out)@) == items_view(old(out)@) + all_plain(
            fresh(tables::texts(names@), tables::texts(old(seen)@)),
            kind,
            detail@,
        ),
{
    let ghost ns = tables::texts(names@);
    let ghost had = tables::texts(seen@);
    let ghost start = items_view(out@);
    let mut i: usize = 0;
    assert(tables::texts(seen@) =~= had + fresh(ns.take(0), had));
    assert(items_view(out@) =~= start + all_plain(fresh(ns.take(0), had), kind, detail@));
    while i < names.len()
        invariant
            i <= names@.len(),
            ns == tables::texts(names@),
            tables::texts(seen@) == had + fresh(ns.take(i as int), had),
            items_view(out@) == start + all_plain(fresh(ns.take(i as int), had), kind, detail@),
        decreases names@.len() - i,
    {
        let ghost before = tables::texts(seen@);
        let ghost shown = items_view(out@);
        let ghost rest = fresh(ns.take(i as int), had);
        assert(ns.take(i as int + 1).drop_last() =~= ns.take(i as int));
        assert(ns.take(i as int + 1).last() == names@[i as int]@);
        if !words::has_word(seen, names[i].as_str()) {
            seen.push(text::owned(names[i].as_str()));
            out.push(item(names[i].as_str(), kind, detail));
            assert(tables::texts(seen@) =~= before.push(names@[i as int]@));
            assert(items_view(out@) =~= shown.push(plain(names@[i as int]@, kind, detail@)));
            assert(fresh(ns.take(i as int + 1), had) == rest.push(names@[i as int]@));
            assert(tables::texts(seen@) =~= had + rest.push(names@[i as int]@));
            assert(items_view(out@) =~= start + all_plain(
                rest.push(names@[i as int]@),
                kind,
                detail@,
            ));
        }
        i = i + 1;
    }
    assert(ns.take(ns.len() as int) =~= ns);
}

/// The methods a `.` could be followed by: what the runtime answers for
/// strings, tables and numbers, each name once, and the field names this file
/// uses.
pub open spec fn methods_offered(
    strings: Seq<Seq<char>>,
    arrays: Seq<Seq<char>>,
    numbers: Seq<Seq<char>>,
    ts: Seq<Lexed>,
) -> Seq<ItemView> {
    let a = fresh(words::sorted_words(strings), Seq::empty());
    let b = fresh(words::sorted_words(arrays), a);
    let c = fresh(words::sorted_words(numbers), a + b);
    all_plain(a, ItemKind::Method, "string"@) + all_plain(b, ItemKind::Method, "table"@)
        + all_plain(c, ItemKind::Method, "number"@) + all_plain(
        calls::names_written(ts, a + b + c, true, ts.len()),
        ItemKind::Field,
        "used in this file"@,
    )
}

pub fn offer_methods(
    strings: &Vec<String>,
    arrays: &Vec<String>,
    numbers: &Vec<String>,
    ts: &Vec<Lexed>,
) -> (r: Vec<Item>)
    ensures
        items_view(r@) == methods_offered(
            tables::texts(strings@),
            tables::texts(arrays@),
            tables::texts(numbers@),
            ts@,
        ),
{
    let mut out: Vec<Item> = Vec::new();
    let mut seen: Vec<String> = Vec::new();
    assert(tables::texts(seen@) =~= Seq::empty());
    let ghost a = fresh(words::sorted_words(tables::texts(strings@)), Seq::empty());
    let ghost b = fresh(words::sorted_words(tables::texts(arrays@)), a);
    let ghost c = fresh(words::sorted_words(tables::texts(numbers@)), a + b);
    let ordered = words::sorted(strings);
    add_fresh(&ordered, ItemKind::Method, "string", &mut seen, &mut out);
    assert(tables::texts(seen@) =~= a);
    let ordered = words::sorted(arrays);
    add_fresh(&ordered, ItemKind::Method, "table", &mut seen, &mut out);
    assert(tables::texts(seen@) =~= a + b);
    let ordered = words::sorted(numbers);
    add_fresh(&ordered, ItemKind::Method, "number", &mut seen, &mut out);
    assert(tables::texts(seen@) =~= a + b + c);
    let used = calls::fields_used(ts, &seen);
    add_plain(&used, ItemKind::Field, "used in this file", &mut out);
    assert(items_view(out@) =~= methods_offered(
        tables::texts(strings@),
        tables::texts(arrays@),
        tables::texts(numbers@),
        ts@,
    ));
    out
}

/// A name of the runtime: a module, or something to call.
pub open spec fn global_item(g: Provided) -> ItemView {
    plain(
        g.name@,
        if g.members is Some {
            ItemKind::Module
        } else {
            ItemKind::Function
        },
        "runtime"@,
    )
}

pub open spec fn global_items(gs: Seq<Provided>) -> Seq<ItemView> {
    Seq::new(gs.len(), |i: int| global_item(gs[i]))
}

pub open spec fn global_texts(gs: Seq<Provided>) -> Seq<Seq<char>> {
    Seq::new(gs.len(), |i: int| gs[i].name@)
}

/// The type a name was given, by the last mention of it that has one.
pub open spec fn type_given(os: Seq<Occurrence>, fs: Seq<facts::FactView>, name: Seq<char>) -> Option<
    Seq<char>,
>
    decreases os.len(),
{
    if os.len() == 0 {
        None
    } else {
        let o = os.last();
        let rest = type_given(os.drop_last(), fs, name);
        match o.decl {
            Some(d) => match facts::type_at(fs, d) {
                Some(t) => if o.name@ == name {
                    Some(say::shown(t))
                } else {
                    rest
                },
                None => rest,
            },
            None => rest,
        }
    }
}

/// A name of this file, with its signature or the type it was given.
pub open spec fn own_item(os: Seq<Occurrence>, fs: Seq<facts::FactView>, name: Seq<char>) -> ItemView {
    match facts::function_of(fs, name, 0) {
        Some((params, ret)) => plain(
            name,
            ItemKind::Function,
            facts::label_of(name, params@, ret),
        ),
        None => match type_given(os, fs, name) {
            Some(t) => plain(name, ItemKind::Variable, t),
            None => plain(name, ItemKind::Variable, "this file"@),
        },
    }
}

/// Keywords, what the runtime provides, and the names this file declares.
pub open spec fn scope_offered(
    gs: Seq<Provided>,
    ts: Seq<Lexed>,
    os: Seq<Occurrence>,
    fs: Seq<facts::FactView>,
) -> Seq<ItemView> {
    let own = calls::names_written(ts, global_texts(gs), false, ts.len());
    all_plain(words::keyword_list(), ItemKind::Keyword, "keyword"@) + global_items(gs) + Seq::new(
        own.len(),
        |i: int| own_item(os, fs, own[i]),
    )
}

fn find_given(os: &Vec<Occurrence>, known: &Types, name: &str) -> (r: Option<String>)
    ensures
        match r {
            Some(s) => type_given(os@, known@, name@) == Some(s@),
            None => type_given(os@, known@, name@) is None,
        },
{
    let mut i: usize = os.len();
    assert(os@.take(i as int) =~= os@);
    while i > 0
        invariant
            i <= os@.len(),
            type_given(os@.take(i as int), known@, name@) == type_given(os@, known@, name@),
        decreases i,
    {
        assert(os@.take(i as int).drop_last() =~= os@.take(i - 1));
        assert(os@.take(i as int).last() == os@[i - 1]);
        i = i - 1;
        match os[i].decl {
            Some(d) => match known.at(d) {
                Some(t) => {
                    if text::same(os[i].name.as_str(), name) {
                        return Some(types::text_of(t));
                    }
                },
                None => {},
            },
            None => {},
        }
    }
    None
}

fn offer_own(os: &Vec<Occurrence>, known: &Types, name: &str) -> (r: Item)
    ensures
        r@ == own_item(os@, known@, name@),
{
    match known.function(name) {
        Some(sig) => {
            let label = sig.label();
            item(name, ItemKind::Function, label.as_str())
        },
        None => match find_given(os, known, name) {
            Some(t) => item(name, ItemKind::Variable, t.as_str()),
            None => item(name, ItemKind::Variable, "this file"),
        },
    }
}

fn add_globals(gs: &Vec<Provided>, names: &mut Vec<String>, out: &mut Vec<Item>)
    requires
        old(names)@.len() == 0,
    ensures
        tables::texts(final(names)@) == global_texts(gs@),
        items_view(final(out)@) == items_view(old(out)@) + global_items(gs@),
{
    let ghost start = items_view(out@);
    let ghost want = global_items(gs@);
    let mut i: usize = 0;
    assert(items_view(out@) =~= start + want.take(0));
    assert(tables::texts(names@) =~= global_texts(gs@).take(0));
    while i < gs.len()
        invariant
            i <= gs@.len(),
            want == global_items(gs@),
            items_view(out@) == start + want.take(i as int),
            tables::texts(names@) == global_texts(gs@).take(i as int),
        decreases gs@.len() - i,
    {
        let ghost before = items_view(out@);
        let ghost had = tables::texts(names@);
        let kind: ItemKind = if gs[i].members.is_some() {
            ItemKind::Module
        } else {
            ItemKind::Function
        };
        out.push(item(gs[i].name.as_str(), kind, "runtime"));
        names.push(text::owned(gs[i].name.as_str()));
        assert(items_view(out@) =~= before.push(want[i as int]));
        assert(items_view(out@) =~= start + want.take(i as int + 1));
        assert(tables::texts(names@) =~= had.push(gs@[i as int].name@));
        assert(tables::texts(names@) =~= global_texts(gs@).take(i as int + 1));
        i = i + 1;
    }
    assert(want.take(want.len() as int) =~= want);
    assert(tables::texts(names@) =~= global_texts(gs@));
}

pub fn offer_scope(gs: &Vec<Provided>, ts: &Vec<Lexed>, os: &Vec<Occurrence>, known: &Types) -> (r: Vec<
    Item,
>)
    ensures
        items_view(r@) == scope_offered(gs@, ts@, os@, known@),
{
    let mut out: Vec<Item> = Vec::new();
    let kept = words::keywords();
    add_plain(&kept, ItemKind::Keyword, "keyword", &mut out);
    let mut names: Vec<String> = Vec::new();
    add_globals(gs, &mut names, &mut out);
    let own = calls::names_in_scope(ts, &names);
    let ghost mine = tables::texts(own@);
    let ghost start = items_view(out@);
    let ghost want = Seq::new(mine.len(), |i: int| own_item(os@, known@, mine[i]));
    let mut i: usize = 0;
    assert(items_view(out@) =~= start + want.take(0));
    while i < own.len()
        invariant
            i <= own@.len(),
            mine == tables::texts(own@),
            want == Seq::new(mine.len(), |k: int| own_item(os@, known@, mine[k])),
            items_view(out@) == start + want.take(i as int),
        decreases own@.len() - i,
    {
        let ghost before = items_view(out@);
        out.push(offer_own(os, known, own[i].as_str()));
        assert(items_view(out@) =~= before.push(want[i as int]));
        assert(items_view(out@) =~= start + want.take(i as int + 1));
        i = i + 1;
    }
    assert(want.take(want.len() as int) =~= want);
    assert(items_view(out@) =~= scope_offered(gs@, ts@, os@, known@));
    out
}

// ---- what `require` could be given -------------------------------------------------------

/// `require("lib/thing")` is written with a directory in it: the part before
/// the last slash says where to look.
pub open spec fn directory_of(prefix: Seq<char>) -> Seq<char> {
    match text::last_at(prefix, seq!['/'], prefix.len()) {
        Some(i) => prefix.take(i as int),
        None => Seq::empty(),
    }
}

pub fn directory(prefix: &str) -> (r: String)
    ensures
        r@ == directory_of(prefix@),
{
    let cs = text::chars_of(prefix);
    let n: usize = cs.len();
    let mut slash: Vec<char> = Vec::new();
    slash.push('/');
    assert(slash@ =~= seq!['/']);
    match text::find_last(&cs, &slash, n) {
        Some(i) => {
            assert(cs@.subrange(0, i as int) =~= prefix@.take(i as int));
            text::string_of(&cs, 0, i)
        },
        None => String::new(),
    }
}

/// What a directory holds: a name, and whether it is a directory itself.
pub struct Entry {
    pub name: String,
    pub directory: bool,
}

/// The name of a rua file without its ending, which `require` adds itself.
pub open spec fn stem_of(name: Seq<char>) -> Option<Seq<char>> {
    let n = name.len() - 4;
    if n >= 0 && name.skip(n) == seq!['.', 'r', 'u', 'a'] {
        Some(name.take(n))
    } else {
        None
    }
}

pub open spec fn under(sub: Seq<char>, name: Seq<char>) -> Seq<char> {
    if sub.len() == 0 {
        name
    } else {
        sub + "/"@ + name
    }
}

/// What an entry is offered as, if it is: a directory to go into, or a file
/// that is not this one.
pub open spec fn entry_item(e: Entry, sub: Seq<char>, own: Option<Seq<char>>) -> Option<ItemView> {
    if e.directory && !(e.name@.len() > 0 && e.name@[0] == '.') {
        Some(plain(under(sub, e.name@) + "/"@, ItemKind::Folder, "directory"@))
    } else {
        match stem_of(e.name@) {
            Some(stem) => if own == Some(under(sub, stem)) {
                None
            } else {
                Some(plain(under(sub, stem), ItemKind::Module, "a file beside this one"@))
            },
            None => None,
        }
    }
}

/// Put an item in its place by its label, after those of the same.
pub open spec fn put_item(s: Seq<ItemView>, x: ItemView) -> Seq<ItemView>
    decreases s.len(),
{
    if s.len() == 0 || !text::before(x.label, s.last().label, 0) {
        s.push(x)
    } else {
        put_item(s.drop_last(), x).push(s.last())
    }
}

pub open spec fn entries_offered(es: Seq<Entry>, sub: Seq<char>, own: Option<Seq<char>>) -> Seq<
    ItemView,
>
    decreases es.len(),
{
    if es.len() == 0 {
        Seq::empty()
    } else {
        let rest = entries_offered(es.drop_last(), sub, own);
        match entry_item(es.last(), sub, own) {
            Some(x) => put_item(rest, x),
            None => rest,
        }
    }
}

fn join_under(sub: &str, name: &str) -> (r: String)
    ensures
        r@ == under(sub@, name@),
{
    if sub.is_empty() {
        return text::owned(name);
    }
    let mut out = text::owned(sub);
    out.append("/");
    out.append(name);
    out
}

fn stem(name: &str) -> (r: Option<String>)
    ensures
        maybe(r) == stem_of(name@),
{
    let cs = text::chars_of(name);
    let n: usize = cs.len();
    if n < 4 || cs[n - 4] != '.' || cs[n - 3] != 'r' || cs[n - 2] != 'u' || cs[n - 1] != 'a' {
        proof {
            if n >= 4 {
                let end = name@.skip(n - 4);
                assert(end[0] == cs@[n - 4] && end[1] == cs@[n - 3] && end[2] == cs@[n - 2]
                    && end[3] == cs@[n - 1]);
                let dot = seq!['.', 'r', 'u', 'a'];
                assert(dot[0] == '.' && dot[1] == 'r' && dot[2] == 'u' && dot[3] == 'a');
            }
        }
        return None;
    }
    assert(name@.skip(n - 4) =~= seq!['.', 'r', 'u', 'a']);
    assert(cs@.subrange(0, n - 4) =~= name@.take(n - 4));
    Some(text::string_of(&cs, 0, n - 4))
}

fn offer_entry(e: &Entry, sub: &str, own: &Option<String>) -> (r: Option<Item>)
    ensures
        match r {
            Some(it) => entry_item(*e, sub@, maybe(*own)) == Some(it@),
            None => entry_item(*e, sub@, maybe(*own)) is None,
        },
{
    let cs = text::chars_of(e.name.as_str());
    let hidden: bool = cs.len() > 0 && cs[0] == '.';
    if e.directory && !hidden {
        let mut label = join_under(sub, e.name.as_str());
        label.append("/");
        return Some(item(label.as_str(), ItemKind::Folder, "directory"));
    }
    match stem(e.name.as_str()) {
        Some(s) => {
            let label = join_under(sub, s.as_str());
            let mine: bool = match own {
                Some(o) => text::same(o.as_str(), label.as_str()),
                None => false,
            };
            if mine {
                None
            } else {
                Some(item(label.as_str(), ItemKind::Module, "a file beside this one"))
            }
        },
        None => None,
    }
}

fn insert_item(s: &mut Vec<Item>, x: Item)
    ensures
        items_view(final(s)@) == put_item(items_view(old(s)@), x@),
{
    let ghost all = items_view(s@);
    let mut i: usize = s.len();
    assert(all.take(i as int) + all.skip(i as int) =~= all);
    assert(put_item(all.take(i as int), x@) + all.skip(i as int) =~= put_item(all, x@));
    while i > 0 && text::comes_before(x.label.as_str(), s[i - 1].label.as_str())
        invariant
            i <= s@.len(),
            all == items_view(s@),
            put_item(all.take(i as int), x@) + all.skip(i as int) == put_item(all, x@),
        decreases i,
    {
        proof {
            let t = all.take(i as int);
            assert(t.drop_last() =~= all.take(i - 1));
            assert(t.last() == s@[i - 1]@);
            assert(put_item(all.take(i - 1), x@).push(all[i - 1]) + all.skip(i as int) =~= put_item(
                all.take(i - 1),
                x@,
            ) + all.skip(i - 1));
        }
        i = i - 1;
    }
    proof {
        let t = all.take(i as int);
        if i > 0 {
            assert(t.last() == s@[i - 1]@);
        }
        assert(put_item(t, x@) == t.push(x@));
        assert(all.insert(i as int, x@) =~= t.push(x@) + all.skip(i as int));
    }
    s.insert(i, x);
    assert(items_view(s@) =~= all.insert(i as int, x@));
}

/// The rua files and directories beside a file.
pub fn offer_entries(es: &Vec<Entry>, sub: &str, own: &Option<String>) -> (r: Vec<Item>)
    ensures
        items_view(r@) == entries_offered(es@, sub@, maybe(*own)),
{
    let mut out: Vec<Item> = Vec::new();
    let mut i: usize = 0;
    assert(items_view(out@) =~= entries_offered(es@.take(0), sub@, maybe(*own)));
    while i < es.len()
        invariant
            i <= es@.len(),
            items_view(out@) == entries_offered(es@.take(i as int), sub@, maybe(*own)),
        decreases es@.len() - i,
    {
        assert(es@.take(i as int + 1).drop_last() =~= es@.take(i as int));
        assert(es@.take(i as int + 1).last() == es@[i as int]);
        match offer_entry(&es[i], sub, own) {
            Some(x) => insert_item(&mut out, x),
            None => {},
        }
        i = i + 1;
    }
    assert(es@.take(es@.len() as int) =~= es@);
    out
}

// ---- what is offered ------------------------------------------------------------------------

/// Of some names, those that are new are offered, each once, and all of them.
pub proof fn lemma_fresh(names: Seq<Seq<char>>, seen: Seq<Seq<char>>)
    ensures
        forall|i: int|
            0 <= i < fresh(names, seen).len() ==> names.contains(#[trigger] fresh(names, seen)[i])
                && !seen.contains(fresh(names, seen)[i]),
        forall|i: int, j: int|
            0 <= i < j < fresh(names, seen).len() ==> #[trigger] fresh(names, seen)[i]
                != #[trigger] fresh(names, seen)[j],
        forall|i: int|
            0 <= i < names.len() ==> seen.contains(#[trigger] names[i]) || fresh(
                names,
                seen,
            ).contains(names[i]),
    decreases names.len(),
{
    if names.len() > 0 {
        let less = names.drop_last();
        let rest = fresh(less, seen);
        let all = fresh(names, seen);
        let last = names.last();
        lemma_fresh(less, seen);
        if (seen + rest).contains(last) {
            let w = choose|w: int| 0 <= w < (seen + rest).len() && (seen + rest)[w] == last;
            if w < seen.len() {
                assert(seen[w] == last);
            } else {
                assert(rest[w - seen.len()] == last);
            }
        } else {
            assert(all[rest.len() as int] == last);
            if seen.contains(last) {
                let w = choose|w: int| 0 <= w < seen.len() && seen[w] == last;
                assert((seen + rest)[w] == last);
            }
            assert forall|i: int| 0 <= i < rest.len() implies #[trigger] rest[i] != last by {
                assert((seen + rest)[seen.len() + i] == rest[i]);
            }
        }
        assert forall|i: int| 0 <= i < all.len() implies names.contains(#[trigger] all[i])
            && !seen.contains(all[i]) by {
            if i < rest.len() {
                assert(all[i] == rest[i]);
                let w = choose|w: int| 0 <= w < less.len() && less[w] == rest[i];
                assert(names[w] == rest[i]);
            } else {
                assert(names[names.len() - 1] == last);
            }
        }
        assert forall|i: int, j: int| 0 <= i < j < all.len() implies #[trigger] all[i]
            != #[trigger] all[j] by {
            assert(all[i] == rest[i]);
            if j < rest.len() {
                assert(all[j] == rest[j]);
            }
        }
        assert forall|i: int| 0 <= i < names.len() implies seen.contains(#[trigger] names[i])
            || all.contains(names[i]) by {
            if i < less.len() {
                assert(less[i] == names[i]);
                if rest.contains(less[i]) {
                    let w = choose|w: int| 0 <= w < rest.len() && rest[w] == less[i];
                    assert(all[w] == less[i]);
                }
            } else if !(seen + rest).contains(last) {
                assert(all[rest.len() as int] == names[i]);
            } else {
                if rest.contains(last) {
                    let w = choose|w: int| 0 <= w < rest.len() && rest[w] == last;
                    assert(all[w] == last);
                }
            }
        }
    }
}

/// Things are in order by their labels.
pub open spec fn in_label_order(s: Seq<ItemView>) -> bool {
    forall|i: int, j: int|
        0 <= i < j < s.len() ==> !text::before((#[trigger] s[j]).label, (#[trigger] s[i]).label, 0)
}

proof fn lemma_put_item(s: Seq<ItemView>, x: ItemView)
    requires
        in_label_order(s),
    ensures
        in_label_order(put_item(s, x)),
        put_item(s, x).to_multiset() == s.to_multiset().insert(x),
        put_item(s, x).len() == s.len() + 1,
    decreases s.len(),
{
    broadcast use vstd::seq_lib::group_to_multiset_ensures;

    if s.len() == 0 || !text::before(x.label, s.last().label, 0) {
        let r = s.push(x);
        assert forall|i: int, j: int| 0 <= i < j < r.len() implies !text::before(
            (#[trigger] r[j]).label,
            (#[trigger] r[i]).label,
            0,
        ) by {
            if j == s.len() && i < s.len() - 1 {
                assert(!text::before(s.last().label, s[i].label, 0));
                text::lemma_before_row(x.label, s.last().label, s[i].label, 0);
            }
        }
    } else {
        let front = s.drop_last();
        let last = s.last();
        lemma_put_item(front, x);
        let p = put_item(front, x);
        let r = p.push(last);
        assert forall|i: int, j: int| 0 <= i < j < r.len() implies !text::before(
            (#[trigger] r[j]).label,
            (#[trigger] r[i]).label,
            0,
        ) by {
            if j == p.len() {
                assert(p.to_multiset().contains(p[i]));
                assert(front.to_multiset().insert(x).contains(p[i]));
                if p[i] == x {
                    text::lemma_before_one_way(x.label, last.label, 0);
                } else {
                    assert(front.contains(p[i]));
                    let w = choose|w: int| 0 <= w < front.len() && front[w] == p[i];
                    assert(s[w] == p[i]);
                }
            }
        }
        assert(front.push(last) =~= s);
        assert(r.to_multiset() =~= s.to_multiset().insert(x));
    }
}

/// How many of some entries are offered.
pub open spec fn offered_count(es: Seq<Entry>, sub: Seq<char>, own: Option<Seq<char>>) -> nat
    decreases es.len(),
{
    if es.len() == 0 {
        0
    } else {
        offered_count(es.drop_last(), sub, own) + if entry_item(es.last(), sub, own) is Some {
            1nat
        } else {
            0
        }
    }
}

/// The files beside this one are offered in order, each directory and each file that
/// can be required once, and nothing else.
pub proof fn lemma_entries_in_order(es: Seq<Entry>, sub: Seq<char>, own: Option<Seq<char>>)
    ensures
        in_label_order(entries_offered(es, sub, own)),
        entries_offered(es, sub, own).len() == offered_count(es, sub, own),
        forall|i: int|
            0 <= i < es.len() && entry_item(#[trigger] es[i], sub, own) is Some
                ==> entries_offered(es, sub, own).to_multiset().contains(
                entry_item(es[i], sub, own)->Some_0,
            ),
    decreases es.len(),
{
    if es.len() > 0 {
        let less = es.drop_last();
        lemma_entries_in_order(less, sub, own);
        let rest = entries_offered(less, sub, own);
        match entry_item(es.last(), sub, own) {
            Some(x) => {
                lemma_put_item(rest, x);
            },
            None => {},
        }
        assert forall|i: int|
            0 <= i < es.len() && entry_item(#[trigger] es[i], sub, own) is Some implies entries_offered(
            es,
            sub,
            own,
        ).to_multiset().contains(entry_item(es[i], sub, own)->Some_0) by {
            if i < less.len() {
                assert(less[i] == es[i]);
            }
        }
    }
}

/// The file `require` reads for a name.
pub open spec fn file_of(stem: Seq<char>) -> Seq<char> {
    stem + seq!['.', 'r', 'u', 'a']
}

/// A file is offered by the name `require` knows it by, which is its name without the
/// ending; what has another ending is not offered, nor is a hidden directory.
pub proof fn lemma_entries(e: Entry, sub: Seq<char>, own: Option<Seq<char>>, stem: Seq<char>)
    ensures
        !e.directory && e.name@ == file_of(stem) && own != Some(under(sub, stem))
            ==> (entry_item(e, sub, own) matches Some(x) && x.label == under(sub, stem)
            && x.insert is None),
        !e.directory && e.name@ == file_of(stem) && own == Some(under(sub, stem))
            ==> entry_item(e, sub, own) is None,
        !e.directory && (forall|t: Seq<char>| e.name@ != #[trigger] file_of(t))
            ==> entry_item(e, sub, own) is None,
        e.directory && e.name@.len() > 0 && e.name@[0] != '.' ==> (entry_item(e, sub, own) matches Some(
            x,
        ) && x.label == under(sub, e.name@) + "/"@),
{
    let end = seq!['.', 'r', 'u', 'a'];
    let n = e.name@.len() - 4;
    if e.name@ == file_of(stem) {
        assert(e.name@.skip(n) =~= end);
        assert(e.name@.take(n) =~= stem);
    }
    match stem_of(e.name@) {
        Some(t) => {
            assert(file_of(t) =~= e.name@);
        },
        None => {},
    }
}

/// Where to look is what stands before the last slash.
pub proof fn lemma_directory(dir: Seq<char>, name: Seq<char>)
    requires
        !name.contains('/'),
    ensures
        directory_of(dir + seq!['/'] + name) == dir,
        directory_of(name) == Seq::<char>::empty(),
{
    let s = dir + seq!['/'] + name;
    lemma_last_slash(s, dir.len(), s.len());
    assert(s.take(dir.len() as int) =~= dir);
    lemma_no_slash(name, name.len());
}

proof fn lemma_last_slash(s: Seq<char>, at: nat, i: nat)
    requires
        at < i <= s.len(),
        s[at as int] == '/',
        forall|j: int| at < j < s.len() ==> #[trigger] s[j] != '/',
    ensures
        text::last_at(s, seq!['/'], i) == Some(at),
    decreases i,
{
    if i - 1 == at {
        assert(s.subrange(at as int, at as int + 1) =~= seq!['/']);
    } else {
        if text::is_at(s, seq!['/'], i - 1) {
            assert(s.subrange(i - 1, i as int)[0] == seq!['/'][0]);
            assert(s[i - 1] == '/');
        }
        lemma_last_slash(s, at, (i - 1) as nat);
    }
}

proof fn lemma_no_slash(s: Seq<char>, i: nat)
    requires
        !s.contains('/'),
        i <= s.len(),
    ensures
        text::last_at(s, seq!['/'], i) is None,
    decreases i,
{
    if i > 0 {
        if text::is_at(s, seq!['/'], i - 1) {
            assert(s.subrange(i - 1, i as int)[0] == seq!['/'][0]);
            assert(s[i - 1] == '/');
        }
        lemma_no_slash(s, (i - 1) as nat);
    }
}

} // verus!
