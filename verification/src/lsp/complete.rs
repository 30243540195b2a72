//! What could be written where the cursor is.
use super::calls;
use super::cursor;
use super::cursor::Where;
use super::facts;
use super::facts::Types;
use super::hover;
use super::hover::Provided;
use super::index;
use super::index::LineIndex;
use super::names::Occurrence;
use super::offer;
use super::offer::Item;
use super::tokens::Lexed;
use crate::ast::Span;
use crate::builtin::tables;
use vstd::prelude::*;

verus! {

/// What the runtime has: its globals, and the methods of strings, tables and
/// numbers.
pub struct Runtime {
    pub globals: Vec<Provided>,
    pub strings: Vec<String>,
    pub arrays: Vec<String>,
    pub numbers: Vec<String>,
}

/// A file as it stands: its tokens and comments, the names in it and what it
/// says of its types.
pub struct Source<'a> {
    pub tokens: &'a Vec<Lexed>,
    pub comments: &'a Vec<Span>,
    pub lines: &'a LineIndex,
    pub names: &'a Vec<Occurrence>,
    pub types: &'a Types<'a>,
}

impl<'a> Source<'a> {
    pub open spec fn wf(&self) -> bool {
        &&& self.lines.wf()
        &&& calls::well_placed(self.tokens@, self.lines@)
    }
}

/// Things to offer, or the directory whose files are to be.
pub enum Completion {
    Items(Vec<Item>),
    Files(String),
}

/// What is offered in one place. Inside a comment, inside a text and where a
/// name is being invented that is nothing.
pub open spec fn offered(w: cursor::WhereView, src: Source, rt: Runtime) -> Seq<offer::ItemView> {
    let fs = src.types@;
    let scope = offer::scope_offered(rt.globals@, src.tokens@, src.names@, fs);
    match w {
        cursor::WhereView::TypeName => offer::types_offered(fs),
        cursor::WhereView::Field(shape) => offer::fields_offered(fs, shape),
        cursor::WhereView::Argument(callee, i) => match offer::argument_offered(
            fs,
            callee,
            i as usize,
        ) {
            Some(it) => seq![it] + scope,
            None => scope,
        },
        cursor::WhereView::Member(module) => match hover::members_of(rt.globals@, module) {
            Some(ms) => offer::members_offered(module, ms),
            None => Seq::empty(),
        },
        cursor::WhereView::Method => offer::methods_offered(
            tables::texts(rt.strings@),
            tables::texts(rt.arrays@),
            tables::texts(rt.numbers@),
            src.tokens@,
        ),
        cursor::WhereView::Expression => scope,
        _ => Seq::empty(),
    }
}

fn offer_at(w: &Where, src: &Source, rt: &Runtime) -> (r: Vec<Item>)
    ensures
        offer::items_view(r@) == offered(w@, *src, *rt),
{
    match w {
        Where::TypeName => offer::offer_types(src.types),
        Where::Field(shape) => offer::offer_fields(src.types, shape.as_str()),
        Where::Argument(callee, i) => {
            let mut scope = offer::offer_scope(&rt.globals, src.tokens, src.names, src.types);
            match offer::offer_argument(src.types, callee.as_str(), *i) {
                Some(it) => {
                    let ghost before = offer::items_view(scope@);
                    let ghost first = it@;
                    scope.insert(0, it);
                    assert(offer::items_view(scope@) =~= seq![first] + before);
                },
                None => {},
            }
            scope
        },
        Where::Member(module) => match hover::members(&rt.globals, module.as_str()) {
            Some(ms) => offer::offer_members(module.as_str(), ms),
            None => {
                let none: Vec<Item> = Vec::new();
                assert(offer::items_view(none@) =~= Seq::empty());
                none
            },
        },
        Where::Method => offer::offer_methods(&rt.strings, &rt.arrays, &rt.numbers, src.tokens),
        Where::Expression => offer::offer_scope(&rt.globals, src.tokens, src.names, src.types),
        _ => {
            let none: Vec<Item> = Vec::new();
            assert(offer::items_view(none@) =~= Seq::empty());
            none
        },
    }
}

/// What is worth offering where the cursor is. Inside `require("..` that is a
/// list of files, which the caller reads.
pub fn complete(src: &Source, rt: &Runtime, at: u32) -> (r: Completion)
    requires
        src.wf(),
        index::on_boundary(src.lines@, at),
    ensures
        match cursor::where_of(src.tokens@, src.comments@, src.lines@, at) {
            cursor::WhereView::Require(prefix) => r matches Completion::Files(p) && p@ == prefix,
            w => r matches Completion::Items(items) && offer::items_view(items@) == offered(
                w,
                *src,
                *rt,
            ),
        },
{
    assert forall|i: int| 0 <= i < src.tokens@.len() implies index::on_boundary(
        src.lines@,
        (#[trigger] src.tokens@[i]).span.lo,
    ) by {}
    let w = cursor::where_is(src.tokens, src.comments, src.lines, at);
    match w {
        Where::Require(prefix) => Completion::Files(prefix),
        _ => Completion::Items(offer_at(&w, src, rt)),
    }
}

} // verus!
