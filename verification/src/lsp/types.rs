//! Types as they were written: their text, and filling in a generic.
use crate::ast::{Name, Span, Type};
use crate::builtin::tables;
use crate::text;
use vstd::prelude::*;

verus! {

pub ghost struct NameView {
    pub text: Seq<char>,
    pub span: Span,
    pub ty: Option<Box<TypeView>>,
}

/// A type, with text in place of strings.
pub ghost enum TypeView {
    Named(Seq<char>, Seq<TypeView>, Span),
    Array(Box<TypeView>, Span),
    Record(Seq<(NameView, TypeView)>, Span),
    Fn(Seq<(NameView, TypeView)>, Option<Box<TypeView>>, Span),
}

pub open spec fn name_view(n: Name) -> NameView
    decreases n, 1int,
{
    NameView { text: n.text@, span: n.span, ty: boxed_view(n.ty) }
}

pub open spec fn boxed_view(t: Option<Box<Type>>) -> Option<Box<TypeView>>
    decreases t, 0int,
{
    match t {
        Some(b) => Some(Box::new(type_view(*b))),
        None => None,
    }
}

pub open spec fn types_view(s: Seq<Type>) -> Seq<TypeView>
    decreases s, 0int,
{
    if s.len() == 0 {
        Seq::empty()
    } else {
        types_view(s.drop_last()).push(type_view(s[s.len() - 1]))
    }
}

pub open spec fn fields_view(s: Seq<(Name, Type)>) -> Seq<(NameView, TypeView)>
    decreases s, 0int,
{
    if s.len() == 0 {
        Seq::empty()
    } else {
        fields_view(s.drop_last()).push(
            (name_view(s[s.len() - 1].0), type_view(s[s.len() - 1].1)),
        )
    }
}

pub open spec fn type_view(t: Type) -> TypeView
    decreases t, 1int,
{
    match t {
        Type::Named(n, args, s) => TypeView::Named(n@, types_view(args@), s),
        Type::Array(inner, s) => TypeView::Array(Box::new(type_view(*inner)), s),
        Type::Record(fs, s) => TypeView::Record(fields_view(fs@), s),
        Type::Fn(fs, ret, s) => TypeView::Fn(fields_view(fs@), boxed_view(ret), s),
    }
}

pub proof fn lemma_types_view(s: Seq<Type>)
    ensures
        types_view(s).len() == s.len(),
        forall|i: int| 0 <= i < s.len() ==> #[trigger] types_view(s)[i] == type_view(s[i]),
    decreases s.len(),
{
    if s.len() > 0 {
        lemma_types_view(s.drop_last());
    }
}

pub proof fn lemma_fields_view(s: Seq<(Name, Type)>)
    ensures
        fields_view(s).len() == s.len(),
        forall|i: int|
            0 <= i < s.len() ==> #[trigger] fields_view(s)[i] == (name_view(s[i].0), type_view(s[i].1)),
    decreases s.len(),
{
    if s.len() > 0 {
        lemma_fields_view(s.drop_last());
    }
}

// ---- putting the arguments in place of the parameters ------------------------------------

/// What a name stands for: the last of the pairs that bind it.
pub open spec fn bound_to(bound: Seq<(Seq<char>, TypeView)>, name: Seq<char>) -> Option<TypeView>
    decreases bound.len(),
{
    if bound.len() == 0 {
        None
    } else if bound.last().0 == name {
        Some(bound.last().1)
    } else {
        bound_to(bound.drop_last(), name)
    }
}

/// A type with arguments in place of parameters, all the way down. A name
/// that takes arguments of its own is not a parameter.
pub open spec fn substituted(t: TypeView, bound: Seq<(Seq<char>, TypeView)>) -> TypeView
    decreases t, 1int,
{
    match t {
        TypeView::Named(n, args, s) => match bound_to(bound, n) {
            Some(x) => if args.len() == 0 {
                x
            } else {
                TypeView::Named(n, all_substituted(args, bound), s)
            },
            None => TypeView::Named(n, all_substituted(args, bound), s),
        },
        TypeView::Array(inner, s) => TypeView::Array(Box::new(substituted(*inner, bound)), s),
        TypeView::Record(fs, s) => TypeView::Record(fields_substituted(fs, bound), s),
        TypeView::Fn(fs, ret, s) => TypeView::Fn(
            fields_substituted(fs, bound),
            ret_substituted(ret, bound),
            s,
        ),
    }
}

pub open spec fn ret_substituted(
    t: Option<Box<TypeView>>,
    bound: Seq<(Seq<char>, TypeView)>,
) -> Option<Box<TypeView>>
    decreases t, 0int,
{
    match t {
        Some(b) => Some(Box::new(substituted(*b, bound))),
        None => None,
    }
}

pub open spec fn all_substituted(
    ts: Seq<TypeView>,
    bound: Seq<(Seq<char>, TypeView)>,
) -> Seq<TypeView>
    decreases ts, 0int,
{
    if ts.len() == 0 {
        Seq::empty()
    } else {
        all_substituted(ts.drop_last(), bound).push(substituted(ts[ts.len() - 1], bound))
    }
}

pub open spec fn fields_substituted(
    fs: Seq<(NameView, TypeView)>,
    bound: Seq<(Seq<char>, TypeView)>,
) -> Seq<(NameView, TypeView)>
    decreases fs, 0int,
{
    if fs.len() == 0 {
        Seq::empty()
    } else {
        fields_substituted(fs.drop_last(), bound).push(
            (fs[fs.len() - 1].0, substituted(fs[fs.len() - 1].1, bound)),
        )
    }
}

/// Nothing is filled in where nothing is bound.
pub proof fn lemma_nothing_bound(t: TypeView)
    ensures
        substituted(t, Seq::empty()) == t,
    decreases t, 1int,
{
    match t {
        TypeView::Named(n, args, s) => {
            lemma_nothing_bound_all(args);
        },
        TypeView::Array(inner, s) => {
            lemma_nothing_bound(*inner);
        },
        TypeView::Record(fs, s) => {
            lemma_nothing_bound_fields(fs);
        },
        TypeView::Fn(fs, ret, s) => {
            lemma_nothing_bound_fields(fs);
            match ret {
                Some(b) => lemma_nothing_bound(*b),
                None => {},
            }
            assert(ret_substituted(ret, Seq::empty()) == ret);
        },
    }
}

proof fn lemma_nothing_bound_all(ts: Seq<TypeView>)
    ensures
        all_substituted(ts, Seq::empty()) == ts,
    decreases ts, 0int,
{
    if ts.len() > 0 {
        lemma_nothing_bound_all(ts.drop_last());
        lemma_nothing_bound(ts[ts.len() - 1]);
        assert(ts.drop_last().push(ts.last()) =~= ts);
    } else {
        assert(all_substituted(ts, Seq::empty()) =~= ts);
    }
}

proof fn lemma_nothing_bound_fields(fs: Seq<(NameView, TypeView)>)
    ensures
        fields_substituted(fs, Seq::empty()) == fs,
    decreases fs, 0int,
{
    if fs.len() > 0 {
        lemma_nothing_bound_fields(fs.drop_last());
        lemma_nothing_bound(fs[fs.len() - 1].1);
        assert(fs.drop_last().push(fs.last()) =~= fs);
    } else {
        assert(fields_substituted(fs, Seq::empty()) =~= fs);
    }
}

fn copy_name(n: &Name) -> (r: Name)
    ensures
        name_view(r) == name_view(*n),
    decreases *n, 1int,
{
    let ty: Option<Box<Type>> = copy_boxed(&n.ty);
    Name { text: text::owned(n.text.as_str()), span: n.span, ty }
}

fn copy_boxed(t: &Option<Box<Type>>) -> (r: Option<Box<Type>>)
    ensures
        boxed_view(r) == boxed_view(*t),
    decreases *t, 0int,
{
    match t {
        Some(b) => Some(Box::new(copy_type(b))),
        None => None,
    }
}

fn copy_types(s: &Vec<Type>) -> (r: Vec<Type>)
    ensures
        types_view(r@) == types_view(s@),
    decreases *s, 0int,
{
    let mut out: Vec<Type> = Vec::new();
    let mut i: usize = 0;
    while i < s.len()
        invariant
            i <= s@.len(),
            types_view(out@) == types_view(s@.take(i as int)),
        decreases s@.len() - i,
    {
        let ghost before = out@;
        out.push(copy_type(&s[i]));
        assert(out@.drop_last() =~= before);
        assert(s@.take(i as int + 1).drop_last() =~= s@.take(i as int));
        i = i + 1;
    }
    assert(s@.take(s@.len() as int) =~= s@);
    out
}

fn copy_fields(s: &Vec<(Name, Type)>) -> (r: Vec<(Name, Type)>)
    ensures
        fields_view(r@) == fields_view(s@),
    decreases *s, 0int,
{
    let mut out: Vec<(Name, Type)> = Vec::new();
    let mut i: usize = 0;
    while i < s.len()
        invariant
            i <= s@.len(),
            fields_view(out@) == fields_view(s@.take(i as int)),
        decreases s@.len() - i,
    {
        let ghost before = out@;
        out.push((copy_name(&s[i].0), copy_type(&s[i].1)));
        assert(out@.drop_last() =~= before);
        assert(s@.take(i as int + 1).drop_last() =~= s@.take(i as int));
        i = i + 1;
    }
    assert(s@.take(s@.len() as int) =~= s@);
    out
}

pub fn copy_type(t: &Type) -> (r: Type)
    ensures
        type_view(r) == type_view(*t),
    decreases *t, 1int,
{
    match t {
        Type::Named(n, args, s) => Type::Named(text::owned(n.as_str()), copy_types(args), *s),
        Type::Array(inner, s) => Type::Array(Box::new(copy_type(inner)), *s),
        Type::Record(fs, s) => Type::Record(copy_fields(fs), *s),
        Type::Fn(fs, ret, s) => Type::Fn(copy_fields(fs), copy_boxed(ret), *s),
    }
}

/// The pairs of some parameters and the arguments they are given.
pub open spec fn pairs(params: Seq<Name>, args: Seq<Type>) -> Seq<(Seq<char>, TypeView)> {
    Seq::new(
        if params.len() < args.len() {
            params.len()
        } else {
            args.len()
        },
        |i: int| (params[i].text@, type_view(args[i])),
    )
}

fn find_bound(params: &Vec<Name>, args: &Vec<Type>, name: &str) -> (r: Option<usize>)
    requires
        params@.len() == args@.len(),
    ensures
        match r {
            Some(i) => i < args@.len() && bound_to(pairs(params@, args@), name@) == Some(
                type_view(args@[i as int]),
            ),
            None => bound_to(pairs(params@, args@), name@) is None,
        },
{
    let ghost all = pairs(params@, args@);
    let mut i: usize = params.len();
    assert(all.take(i as int) =~= all);
    while i > 0
        invariant
            i <= params@.len() == args@.len(),
            all == pairs(params@, args@),
            bound_to(all.take(i as int), name@) == bound_to(all, name@),
        decreases i,
    {
        assert(all.take(i as int).drop_last() =~= all.take(i - 1));
        assert(all.take(i as int).last() == all[i - 1]);
        i = i - 1;
        if text::same(params[i].text.as_str(), name) {
            return Some(i);
        }
    }
    None
}

fn substitute_types(s: &Vec<Type>, params: &Vec<Name>, given: &Vec<Type>) -> (r: Vec<Type>)
    requires
        params@.len() == given@.len(),
    ensures
        types_view(r@) == all_substituted(types_view(s@), pairs(params@, given@)),
    decreases *s, 0int,
{
    let ghost bound = pairs(params@, given@);
    let mut out: Vec<Type> = Vec::new();
    let mut i: usize = 0;
    while i < s.len()
        invariant
            i <= s@.len(),
            params@.len() == given@.len(),
            bound == pairs(params@, given@),
            types_view(out@) == all_substituted(types_view(s@.take(i as int)), bound),
        decreases s@.len() - i,
    {
        let ghost before = out@;
        out.push(substitute(&s[i], params, given));
        proof {
            let t = s@.take(i as int + 1);
            assert(out@.drop_last() =~= before);
            assert(t.drop_last() =~= s@.take(i as int));
            assert(types_view(t).drop_last() =~= types_view(t.drop_last()));
        }
        i = i + 1;
    }
    assert(s@.take(s@.len() as int) =~= s@);
    out
}

fn substitute_fields(s: &Vec<(Name, Type)>, params: &Vec<Name>, given: &Vec<Type>) -> (r: Vec<
    (Name, Type),
>)
    requires
        params@.len() == given@.len(),
    ensures
        fields_view(r@) == fields_substituted(fields_view(s@), pairs(params@, given@)),
    decreases *s, 0int,
{
    let ghost bound = pairs(params@, given@);
    let mut out: Vec<(Name, Type)> = Vec::new();
    let mut i: usize = 0;
    while i < s.len()
        invariant
            i <= s@.len(),
            params@.len() == given@.len(),
            bound == pairs(params@, given@),
            fields_view(out@) == fields_substituted(fields_view(s@.take(i as int)), bound),
        decreases s@.len() - i,
    {
        let ghost before = out@;
        out.push((copy_name(&s[i].0), substitute(&s[i].1, params, given)));
        proof {
            let t = s@.take(i as int + 1);
            assert(out@.drop_last() =~= before);
            assert(t.drop_last() =~= s@.take(i as int));
            assert(fields_view(t).drop_last() =~= fields_view(t.drop_last()));
        }
        i = i + 1;
    }
    assert(s@.take(s@.len() as int) =~= s@);
    out
}

/// A type with what is given in place of the parameters.
pub fn substitute(t: &Type, params: &Vec<Name>, given: &Vec<Type>) -> (r: Type)
    requires
        params@.len() == given@.len(),
    ensures
        type_view(r) == substituted(type_view(*t), pairs(params@, given@)),
    decreases *t, 1int,
{
    match t {
        Type::Named(n, args, s) => {
            proof {
                lemma_types_view(args@);
            }
            if args.len() == 0 {
                match find_bound(params, given, n.as_str()) {
                    Some(i) => {
                        return copy_type(&given[i]);
                    },
                    None => {},
                }
            }
            let all = substitute_types(args, params, given);
            Type::Named(text::owned(n.as_str()), all, *s)
        },
        Type::Array(inner, s) => Type::Array(Box::new(substitute(inner, params, given)), *s),
        Type::Record(fs, s) => Type::Record(substitute_fields(fs, params, given), *s),
        Type::Fn(fs, ret, s) => {
            let out: Option<Box<Type>> = match ret {
                Some(b) => Some(Box::new(substitute(b, params, given))),
                None => None,
            };
            assert(boxed_view(out) == ret_substituted(boxed_view(*ret), pairs(params@, given@)));
            Type::Fn(substitute_fields(fs, params, given), out, *s)
        },
    }
}

// ---- text --------------------------------------------------------------------------------

/// A type, the way it is written.
pub open spec fn type_text(t: TypeView) -> Seq<char>
    decreases t, 1int,
{
    match t {
        TypeView::Named(n, args, _) => if args.len() == 0 {
            n
        } else {
            n + "<"@ + tables::joined(type_texts(args), ", "@) + ">"@
        },
        TypeView::Array(inner, _) => "["@ + type_text(*inner) + "]"@,
        TypeView::Record(fs, _) => "#{ "@ + tables::joined(field_texts(fs), ", "@) + " }"@,
        TypeView::Fn(fs, ret, _) => "fn("@ + tables::joined(field_texts(fs), ", "@) + ")"@
            + ret_text(ret),
    }
}

pub open spec fn ret_text(t: Option<Box<TypeView>>) -> Seq<char>
    decreases t, 0int,
{
    match t {
        Some(b) => " -> "@ + type_text(*b),
        None => Seq::empty(),
    }
}

pub open spec fn type_texts(ts: Seq<TypeView>) -> Seq<Seq<char>>
    decreases ts, 0int,
{
    if ts.len() == 0 {
        Seq::empty()
    } else {
        type_texts(ts.drop_last()).push(type_text(ts[ts.len() - 1]))
    }
}

pub open spec fn field_texts(fs: Seq<(NameView, TypeView)>) -> Seq<Seq<char>>
    decreases fs, 0int,
{
    if fs.len() == 0 {
        Seq::empty()
    } else {
        field_texts(fs.drop_last()).push(
            fs[fs.len() - 1].0.text + ": "@ + type_text(fs[fs.len() - 1].1),
        )
    }
}

fn texts_of_types(s: &Vec<Type>) -> (r: Vec<String>)
    ensures
        tables::texts(r@) == type_texts(types_view(s@)),
    decreases *s, 0int,
{
    let mut out: Vec<String> = Vec::new();
    let mut i: usize = 0;
    assert(tables::texts(out@) =~= type_texts(types_view(s@.take(0))));
    while i < s.len()
        invariant
            i <= s@.len(),
            tables::texts(out@) == type_texts(types_view(s@.take(i as int))),
        decreases s@.len() - i,
    {
        let ghost before = tables::texts(out@);
        out.push(text_of(&s[i]));
        proof {
            let t = s@.take(i as int + 1);
            assert(t.drop_last() =~= s@.take(i as int));
            assert(types_view(t).drop_last() =~= types_view(t.drop_last()));
            assert(tables::texts(out@) =~= before.push(type_text(type_view(s@[i as int]))));
        }
        i = i + 1;
    }
    assert(s@.take(s@.len() as int) =~= s@);
    out
}

fn texts_of_fields(s: &Vec<(Name, Type)>) -> (r: Vec<String>)
    ensures
        tables::texts(r@) == field_texts(fields_view(s@)),
    decreases *s, 0int,
{
    let mut out: Vec<String> = Vec::new();
    let mut i: usize = 0;
    assert(tables::texts(out@) =~= field_texts(fields_view(s@.take(0))));
    while i < s.len()
        invariant
            i <= s@.len(),
            tables::texts(out@) == field_texts(fields_view(s@.take(i as int))),
        decreases s@.len() - i,
    {
        let ghost before = tables::texts(out@);
        let mut one = text::owned(s[i].0.text.as_str());
        one.append(": ");
        one.append(text_of(&s[i].1).as_str());
        out.push(one);
        proof {
            let t = s@.take(i as int + 1);
            assert(t.drop_last() =~= s@.take(i as int));
            assert(fields_view(t).drop_last() =~= fields_view(t.drop_last()));
            assert(fields_view(t).last() == (name_view(t.last().0), type_view(t.last().1)));
            assert(name_view(t.last().0).text == s@[i as int].0.text@);
            assert(tables::texts(out@) =~= before.push(
                s@[i as int].0.text@ + ": "@ + type_text(type_view(s@[i as int].1)),
            ));
        }
        i = i + 1;
    }
    assert(s@.take(s@.len() as int) =~= s@);
    out
}

pub fn text_of(t: &Type) -> (r: String)
    ensures
        r@ == type_text(type_view(*t)),
    decreases *t, 1int,
{
    match t {
        Type::Named(n, args, _) => {
            proof {
                lemma_types_view(args@);
            }
            let mut out = text::owned(n.as_str());
            if args.len() > 0 {
                let inside = texts_of_types(args);
                out.append("<");
                out.append(tables::join(&inside, ", ").as_str());
                out.append(">");
            }
            out
        },
        Type::Array(inner, _) => {
            let mut out = text::owned("[");
            out.append(text_of(inner).as_str());
            out.append("]");
            out
        },
        Type::Record(fs, _) => {
            let inside = texts_of_fields(fs);
            let mut out = text::owned("#{ ");
            out.append(tables::join(&inside, ", ").as_str());
            out.append(" }");
            out
        },
        Type::Fn(fs, ret, _) => {
            let inside = texts_of_fields(fs);
            let mut out = text::owned("fn(");
            out.append(tables::join(&inside, ", ").as_str());
            out.append(")");
            let ghost head = out@;
            match ret {
                Some(b) => {
                    out.append(" -> ");
                    out.append(text_of(b).as_str());
                    assert(boxed_view(*ret) == Some(Box::new(type_view(**b))));
                },
                None => {},
            }
            assert(out@ =~= head + ret_text(boxed_view(*ret)));
            assert(type_view(*t) == TypeView::Fn(fields_view(fs@), boxed_view(*ret), t->Fn_2));
            out
        },
    }
}

} // verus!
