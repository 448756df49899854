//! The grammar of Gram notation as spec functions over the token sequence
//! of a text: what each construct denotes, where it ends, and where parsing
//! fails. The parser is proved to compute exactly these.
use vstd::prelude::*;
use crate::lexer::{lex, Token, TokenKind};
use crate::parser::{integer_of, starts_item, MAX_DEPTH};
use crate::pattern::Tree;
use crate::serializer::unescaped;
use crate::subject::{properties_put, Arrow, EntryModel, Form, Subject, SubjectModel, ValueModel};

verus! {

/// The outcome of parsing a construct: its model and the position after
/// it, or the position where a problem was found.
pub enum Parsed<T> {
    Done(T, int),
    Fail(int),
}

/// Token `p` exists and has kind `k`.
pub open spec fn is_kind(t: Seq<Token>, p: int, k: TokenKind) -> bool {
    0 <= p < t.len() && t[p].kind == k
}

/// The characters of token `p`.
pub open spec fn text_of(s: Seq<char>, t: Seq<Token>, p: int) -> Seq<char> {
    s.subrange(t[p].start as int, t[p].end as int)
}

/// The value that token `p` denotes, if any.
pub open spec fn value_at(s: Seq<char>, t: Seq<Token>, p: int) -> Option<ValueModel> {
    if !(0 <= p < t.len()) {
        None
    } else {
        let x = text_of(s, t, p);
        match t[p].kind {
            TokenKind::Str => Some(
                ValueModel::Str(unescaped(s.subrange(t[p].start + 1, t[p].end - 1))),
            ),
            TokenKind::Integer => match integer_of(x) {
                Some(v) => Some(ValueModel::Integer(v)),
                None => None,
            },
            TokenKind::Decimal => Some(ValueModel::Decimal(x)),
            TokenKind::Ident => if x == "true"@ {
                Some(ValueModel::Boolean(true))
            } else if x == "false"@ {
                Some(ValueModel::Boolean(false))
            } else {
                Some(ValueModel::Symbol(x))
            },
            _ => None,
        }
    }
}

/// The entries of a property block from `q` on, after `acc`: `key: value`
/// pairs separated by commas up to the closing brace.
pub open spec fn properties_from(s: Seq<char>, t: Seq<Token>, q: int, acc: Seq<EntryModel>) -> Parsed<
    Seq<EntryModel>,
>
    decreases t.len() - q,
{
    if !is_kind(t, q, TokenKind::Ident) {
        Parsed::Fail(q)
    } else if !is_kind(t, q + 1, TokenKind::Colon) {
        Parsed::Fail(q + 1)
    } else {
        match value_at(s, t, q + 2) {
            None => Parsed::Fail(q + 2),
            Some(v) => {
                let acc2 = properties_put(acc, text_of(s, t, q), v);
                if is_kind(t, q + 3, TokenKind::Comma) {
                    properties_from(s, t, q + 4, acc2)
                } else if is_kind(t, q + 3, TokenKind::RBrace) {
                    Parsed::Done(acc2, q + 4)
                } else {
                    Parsed::Fail(q + 3)
                }
            },
        }
    }
}

/// The labels `:L` from `q` on, added to `acc`.
pub open spec fn labels_from(s: Seq<char>, t: Seq<Token>, q: int, acc: Set<Seq<char>>) -> Parsed<
    Set<Seq<char>>,
>
    decreases t.len() - q,
{
    if !is_kind(t, q, TokenKind::Colon) {
        Parsed::Done(acc, q)
    } else if !is_kind(t, q + 1, TokenKind::Ident) {
        Parsed::Fail(q + 1)
    } else {
        labels_from(s, t, q + 2, acc.insert(text_of(s, t, q + 1)))
    }
}

/// An identity, labels and a property block, each optional, from `p`.
pub open spec fn subject_at(s: Seq<char>, t: Seq<Token>, p: int, form: Form) -> Parsed<SubjectModel> {
    let has_id = is_kind(t, p, TokenKind::Ident);
    let identity = if has_id {
        text_of(s, t, p)
    } else {
        Seq::empty()
    };
    let p1 = if has_id {
        p + 1
    } else {
        p
    };
    match labels_from(s, t, p1, Set::empty()) {
        Parsed::Fail(f) => Parsed::Fail(f),
        Parsed::Done(labels, q) => {
            let props = if is_kind(t, q, TokenKind::LBrace) {
                if is_kind(t, q + 1, TokenKind::RBrace) {
                    Parsed::Done(Seq::empty(), q + 2)
                } else {
                    properties_from(s, t, q + 1, Seq::empty())
                }
            } else {
                Parsed::Done(Seq::empty(), q)
            };
            match props {
                Parsed::Fail(f) => Parsed::Fail(f),
                Parsed::Done(properties, r) => Parsed::Done(
                    SubjectModel { identity, labels, properties, form },
                    r,
                ),
            }
        },
    }
}

/// `( subject )` at `p`.
pub open spec fn node_at(s: Seq<char>, t: Seq<Token>, p: int) -> Parsed<Tree<SubjectModel>> {
    if !is_kind(t, p, TokenKind::LParen) {
        Parsed::Fail(p)
    } else {
        match subject_at(s, t, p + 1, Form::Node) {
            Parsed::Fail(f) => Parsed::Fail(f),
            Parsed::Done(sub, q) => if is_kind(t, q, TokenKind::RParen) {
                Parsed::Done(Tree { value: sub, elements: Seq::empty() }, q + 1)
            } else {
                Parsed::Fail(q)
            },
        }
    }
}

/// A subject with no identity, labels or properties.
pub open spec fn anonymous(form: Form) -> SubjectModel {
    SubjectModel { identity: Seq::empty(), labels: Set::empty(), properties: Seq::empty(), form }
}

/// Whether a token kind begins an arrow.
pub open spec fn arrow_start(k: TokenKind) -> bool {
    match k {
        TokenKind::ArrowRight | TokenKind::ArrowLeft | TokenKind::ArrowBoth
        | TokenKind::ArrowSquiggle | TokenKind::OpenRight | TokenKind::OpenLeft
        | TokenKind::OpenSquiggle => true,
        _ => false,
    }
}

/// An arrow at `p` and the subject of its relationship.
pub open spec fn arrow_at(s: Seq<char>, t: Seq<Token>, p: int) -> Parsed<SubjectModel> {
    if !(0 <= p < t.len()) {
        Parsed::Fail(p)
    } else {
        match t[p].kind {
            TokenKind::ArrowRight => Parsed::Done(anonymous(Form::Relationship(Arrow::Right)), p + 1),
            TokenKind::ArrowLeft => Parsed::Done(anonymous(Form::Relationship(Arrow::Left)), p + 1),
            TokenKind::ArrowBoth => Parsed::Done(anonymous(Form::Relationship(Arrow::Both)), p + 1),
            TokenKind::ArrowSquiggle => Parsed::Done(
                anonymous(Form::Relationship(Arrow::Squiggle)),
                p + 1,
            ),
            TokenKind::OpenRight => closed_arrow(s, t, p, Arrow::Right, TokenKind::CloseRight),
            TokenKind::OpenLeft => closed_arrow(s, t, p, Arrow::Left, TokenKind::CloseLeft),
            TokenKind::OpenSquiggle => closed_arrow(s, t, p, Arrow::Squiggle, TokenKind::CloseSquiggle),
            _ => Parsed::Fail(p),
        }
    }
}

/// A bracketed arrow opened at `p`: its subject, then the closing token;
/// `<-[...]->` points both ways.
pub open spec fn closed_arrow(s: Seq<char>, t: Seq<Token>, p: int, a: Arrow, close: TokenKind) -> Parsed<
    SubjectModel,
> {
    match subject_at(s, t, p + 1, Form::Relationship(a)) {
        Parsed::Fail(f) => Parsed::Fail(f),
        Parsed::Done(sub, q) => if a == Arrow::Left && is_kind(t, q, TokenKind::CloseRight) {
            Parsed::Done(SubjectModel { form: Form::Relationship(Arrow::Both), ..sub }, q + 1)
        } else if is_kind(t, q, close) {
            Parsed::Done(sub, q + 1)
        } else {
            Parsed::Fail(q)
        },
    }
}

/// Folds a chain from its end: each arrow, last first, joins its source node
/// to what follows it.
pub open spec fn fold_chain(
    nodes: Seq<Tree<SubjectModel>>,
    arrows: Seq<SubjectModel>,
    result: Tree<SubjectModel>,
) -> Tree<SubjectModel>
    decreases arrows.len(),
{
    if arrows.len() == 0 || nodes.len() == 0 {
        result
    } else {
        fold_chain(
            nodes.drop_last(),
            arrows.drop_last(),
            Tree { value: arrows.last(), elements: seq![nodes.last(), result] },
        )
    }
}

/// The rest of a chain from `q`, after `nodes` joined by `arrows`; at most
/// `depth` arrows.
pub open spec fn path_from(
    s: Seq<char>,
    t: Seq<Token>,
    q: int,
    depth: int,
    nodes: Seq<Tree<SubjectModel>>,
    arrows: Seq<SubjectModel>,
) -> Parsed<Tree<SubjectModel>>
    decreases t.len() - q,
{
    if 0 <= q < t.len() && arrow_start(t[q].kind) {
        if arrows.len() >= depth {
            Parsed::Fail(q)
        } else {
            match arrow_at(s, t, q) {
                Parsed::Fail(f) => Parsed::Fail(f),
                Parsed::Done(a, q1) => match node_at(s, t, q1) {
                    Parsed::Fail(f) => Parsed::Fail(f),
                    Parsed::Done(n, q2) => if q2 <= q || q2 > t.len() {
                        Parsed::Fail(q2)
                    } else {
                        path_from(s, t, q2, depth, nodes.push(n), arrows.push(a))
                    },
                },
            }
        }
    } else if nodes.len() == 0 {
        Parsed::Fail(q)
    } else {
        Parsed::Done(fold_chain(nodes.drop_last(), arrows, nodes.last()), q)
    }
}

/// The models of a sequence of subjects.
pub open spec fn subject_models(v: Seq<Subject>) -> Seq<SubjectModel> {
    Seq::new(v.len(), |i: int| v[i]@)
}

/// A node, or nodes joined by arrows, at `p`.
pub open spec fn path_at(s: Seq<char>, t: Seq<Token>, p: int, depth: int) -> Parsed<Tree<SubjectModel>> {
    match node_at(s, t, p) {
        Parsed::Fail(f) => Parsed::Fail(f),
        Parsed::Done(n, q) => if q <= p || q > t.len() {
            Parsed::Fail(q)
        } else {
            path_from(s, t, q, depth, seq![n], Seq::empty())
        },
    }
}

/// Position after the bracketed group that opens at `q`, with `open`
/// brackets already open.
pub open spec fn skip_from(t: Seq<Token>, q: int, open: int) -> int
    decreases t.len() - q,
{
    if !(0 <= q < t.len()) {
        q
    } else {
        let k = t[q].kind;
        let o = if k == TokenKind::LBracket || k == TokenKind::OpenRight || k == TokenKind::OpenLeft
            || k == TokenKind::OpenSquiggle {
            open + 1
        } else if (k == TokenKind::RBracket || k == TokenKind::CloseRight || k
            == TokenKind::CloseLeft || k == TokenKind::CloseSquiggle) && open > 0 {
            open - 1
        } else {
            open
        };
        if o == 0 || q + 1 == t.len() {
            q + 1
        } else {
            skip_from(t, q + 1, o)
        }
    }
}

/// A subject pattern `[ subject | member, ... ]` at `p`.
pub open spec fn group_at(s: Seq<char>, t: Seq<Token>, p: int, depth: int) -> Parsed<Tree<SubjectModel>>
    decreases depth, 1int, 0int,
{
    if depth <= 0 {
        Parsed::Fail(skip_from(t, p, 0))
    } else {
        match subject_at(s, t, p + 1, Form::Group) {
            Parsed::Fail(f) => Parsed::Fail(f),
            Parsed::Done(sub, q) => {
                let ms = if is_kind(t, q, TokenKind::Pipe) {
                    if is_kind(t, q + 1, TokenKind::RBracket) {
                        Parsed::Done(Seq::empty(), q + 1)
                    } else if q + 1 > t.len() {
                        Parsed::Fail(q + 1)
                    } else {
                        members_from(s, t, q + 1, depth, Seq::empty())
                    }
                } else {
                    Parsed::Done(Seq::empty(), q)
                };
                match ms {
                    Parsed::Fail(f) => Parsed::Fail(f),
                    Parsed::Done(members, r) => if is_kind(t, r, TokenKind::RBracket) {
                        Parsed::Done(Tree { value: sub, elements: members }, r + 1)
                    } else {
                        Parsed::Fail(r)
                    },
                }
            },
        }
    }
}

/// The members of a subject pattern from `q` on, after `acc`.
pub open spec fn members_from(
    s: Seq<char>,
    t: Seq<Token>,
    q: int,
    depth: int,
    acc: Seq<Tree<SubjectModel>>,
) -> Parsed<Seq<Tree<SubjectModel>>>
    decreases depth, 0int, t.len() - q,
{
    if depth <= 0 || q < 0 || q > t.len() {
        Parsed::Fail(q)
    } else {
        let m = if is_kind(t, q, TokenKind::Ident) {
            Parsed::Done(
                Tree {
                    value: SubjectModel { identity: text_of(s, t, q), ..anonymous(Form::Node) },
                    elements: Seq::empty(),
                },
                q + 1,
            )
        } else if q < t.len() && starts_item(t[q].kind) {
            item_at(s, t, q, depth - 1)
        } else {
            Parsed::Fail(q)
        };
        match m {
            Parsed::Fail(f) => Parsed::Fail(f),
            Parsed::Done(x, q1) => if is_kind(t, q1, TokenKind::Comma) {
                if q1 + 1 <= q || q1 + 1 > t.len() {
                    Parsed::Fail(q1)
                } else {
                    members_from(s, t, q1 + 1, depth, acc.push(x))
                }
            } else {
                Parsed::Done(acc.push(x), q1)
            },
        }
    }
}

/// The annotations from `q` on, added to `acc`: the properties and the
/// position after them, or where one fails.
pub open spec fn annotations_from(s: Seq<char>, t: Seq<Token>, q: int, acc: Seq<EntryModel>) -> Parsed<
    Seq<EntryModel>,
>
    decreases t.len() - q,
{
    if !is_kind(t, q, TokenKind::At) {
        Parsed::Done(acc, q)
    } else if !is_kind(t, q + 1, TokenKind::Ident) {
        Parsed::Fail(q + 1)
    } else if !is_kind(t, q + 2, TokenKind::LParen) {
        Parsed::Fail(q + 2)
    } else {
        match value_at(s, t, q + 3) {
            None => Parsed::Fail(q + 3),
            Some(v) => if !is_kind(t, q + 4, TokenKind::RParen) {
                Parsed::Fail(q + 4)
            } else {
                annotations_from(s, t, q + 5, properties_put(acc, text_of(s, t, q + 1), v))
            },
        }
    }
}

/// An item at `p`: annotations, if any, then a path or a subject pattern.
pub open spec fn item_at(s: Seq<char>, t: Seq<Token>, p: int, depth: int) -> Parsed<Tree<SubjectModel>>
    decreases depth, 2int, 0int,
{
    match annotations_from(s, t, p, Seq::empty()) {
        Parsed::Fail(f) => Parsed::Fail(f),
        Parsed::Done(props, q) => {
            let inner = if is_kind(t, q, TokenKind::LParen) {
                path_at(s, t, q, depth)
            } else if is_kind(t, q, TokenKind::LBracket) {
                group_at(s, t, q, depth)
            } else {
                Parsed::Fail(q)
            };
            match inner {
                Parsed::Fail(f) => Parsed::Fail(f),
                Parsed::Done(x, r) => if q > p {
                    Parsed::Done(
                        Tree {
                            value: SubjectModel { properties: props, ..anonymous(Form::Annotated) },
                            elements: seq![x],
                        },
                        r,
                    )
                } else {
                    Parsed::Done(x, r)
                },
            }
        },
    }
}

/// First position at or after `q` whose token can start an item.
pub open spec fn next_item(t: Seq<Token>, q: int) -> int
    decreases t.len() - q,
{
    if q < 0 || q >= t.len() || starts_item(t[q].kind) {
        q
    } else {
        next_item(t, q + 1)
    }
}

/// Whether a token kind opens a bracket.
pub open spec fn opener(k: TokenKind) -> bool {
    k == TokenKind::LBracket || k == TokenKind::OpenRight || k == TokenKind::OpenLeft || k
        == TokenKind::OpenSquiggle
}

/// Whether a token kind closes a bracket.
pub open spec fn closer(k: TokenKind) -> bool {
    k == TokenKind::RBracket || k == TokenKind::CloseRight || k == TokenKind::CloseLeft || k
        == TokenKind::CloseSquiggle
}

/// Brackets opened less brackets closed among tokens `a..b`.
pub open spec fn balance(t: Seq<Token>, a: int, b: int) -> int
    decreases b - a,
{
    if b <= a || b > t.len() {
        0
    } else {
        balance(t, a, b - 1) + if opener(t[b - 1].kind) {
            1int
        } else if closer(t[b - 1].kind) {
            -1int
        } else {
            0int
        }
    }
}

/// Where parsing goes on after a problem at `f` in an item that started at
/// `start`: past the rest of any bracketed group left open, then at the next
/// token that can start an item.
pub open spec fn resume(t: Seq<Token>, f: int, start: int) -> int {
    let b = balance(t, start, f);
    next_item(
        t,
        if b > 0 {
            skip_from(t, f, b)
        } else if f <= start {
            start + 1
        } else {
            f
        },
    )
}

/// The items from `q` on, after `acc`, with the number of problems found
/// so far: one for each item that fails and each run of tokens that start
/// no item.
pub open spec fn items_from(
    s: Seq<char>,
    t: Seq<Token>,
    q: int,
    acc: Seq<Tree<SubjectModel>>,
    problems: nat,
) -> (Seq<Tree<SubjectModel>>, nat)
    decreases t.len() - q,
{
    if q < 0 || q >= t.len() {
        (acc, problems)
    } else if starts_item(t[q].kind) {
        match item_at(s, t, q, MAX_DEPTH as int) {
            Parsed::Done(x, q1) => if q1 <= q || q1 > t.len() {
                (acc, problems)
            } else {
                items_from(s, t, q1, acc.push(x), problems)
            },
            Parsed::Fail(f) => {
                let n = resume(t, f, q);
                if n <= q || n > t.len() {
                    (acc, problems + 1)
                } else {
                    items_from(s, t, n, acc, problems + 1)
                }
            },
        }
    } else {
        let n = resume(t, q, q);
        if n <= q || n > t.len() {
            (acc, problems + 1)
        } else {
            items_from(s, t, n, acc, problems + 1)
        }
    }
}

/// The patterns that the document `text` denotes, when it has no problem.
pub open spec fn document(text: Seq<char>) -> Option<Seq<Tree<SubjectModel>>> {
    let r = items_from(text, lex(text, 0), 0, Seq::empty(), 0);
    if r.1 == 0 {
        Some(r.0)
    } else {
        None
    }
}

/// The number of problems the parser diagnoses in `text`.
pub open spec fn problems(text: Seq<char>) -> nat {
    items_from(text, lex(text, 0), 0, Seq::empty(), 0).1
}

} // verus!
