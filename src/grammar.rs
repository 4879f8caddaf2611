//! The markup grammar as spec functions over a character sequence.
//!
//! Each function reads the input `s` from position `p` and gives either what
//! it recognised together with the position just after it, or the first
//! fault met. The executable parser is proved to compute exactly these.
use vstd::prelude::*;
use crate::attr_map::map_of;

verus! {

/// What a node is, apart from its children.
pub enum TreeKind {
    Element { tag: Seq<char>, attrs: Map<Seq<char>, Seq<char>> },
    Text(Seq<char>),
    Comment(Seq<char>),
}

/// A document tree as a mathematical value.
pub struct Tree {
    pub kind: TreeKind,
    pub children: Seq<Tree>,
}

/// Why a parse stopped; offsets count characters from the start of the input.
#[allow(inconsistent_fields)]
pub enum Fault {
    UnexpectedToken { expected: Seq<char>, offset: int, found: Option<char> },
    MalformedTag { offset: int },
    MismatchedClosingTag { opened: Seq<char>, found: Seq<char>, offset: int },
    UnterminatedComment { offset: int },
    UnterminatedAttribute { offset: int },
    InvalidAttributeSyntax { offset: int },
}

pub type Step<T> = Result<(T, int), Fault>;

pub open spec fn leaf(kind: TreeKind) -> Tree {
    Tree { kind, children: Seq::empty() }
}

/// The tag of the synthetic element that wraps every document.
pub open spec fn root_tag() -> Seq<char> {
    seq!['r', 'o', 'o', 't']
}

pub open spec fn root(children: Seq<Tree>) -> Tree {
    Tree { kind: TreeKind::Element { tag: root_tag(), attrs: Map::empty() }, children }
}

pub open spec fn comment_open() -> Seq<char> {
    seq!['<', '!', '-', '-']
}

pub open spec fn comment_close() -> Seq<char> {
    seq!['-', '-', '>']
}

pub open spec fn closing_open() -> Seq<char> {
    seq!['<', '/']
}

/// ASCII letters and digits: the characters of tag and attribute names.
pub open spec fn is_name_char(c: char) -> bool {
    ('a' <= c && c <= 'z') || ('A' <= c && c <= 'Z') || ('0' <= c && c <= '9')
}

/// The characters with the Unicode White_Space property.
pub open spec fn is_space(c: char) -> bool {
    let n = c as u32;
    (0x09 <= n && n <= 0x0D) || n == 0x20 || n == 0x85 || n == 0xA0 || n == 0x1680 || (0x2000
        <= n && n <= 0x200A) || n == 0x2028 || n == 0x2029 || n == 0x202F || n == 0x205F || n
        == 0x3000
}

pub open spec fn name_class() -> spec_fn(char) -> bool {
    |c: char| is_name_char(c)
}

pub open spec fn space_class() -> spec_fn(char) -> bool {
    |c: char| is_space(c)
}

/// Characters other than `q`.
pub open spec fn other_than(q: char) -> spec_fn(char) -> bool {
    |c: char| c != q
}

/// End of the longest run from `p` whose characters all satisfy `keep`.
pub open spec fn scan_end(s: Seq<char>, p: int, keep: spec_fn(char) -> bool) -> int
    decreases s.len() - p,
{
    if 0 <= p < s.len() && keep(s[p]) {
        scan_end(s, p + 1, keep)
    } else {
        p
    }
}

pub proof fn lemma_scan_end_bounds(s: Seq<char>, p: int, keep: spec_fn(char) -> bool)
    requires
        0 <= p <= s.len(),
    ensures
        p <= scan_end(s, p, keep) <= s.len(),
        forall|i: int| p <= i < scan_end(s, p, keep) ==> keep(#[trigger] s[i]),
        scan_end(s, p, keep) < s.len() ==> !keep(s[scan_end(s, p, keep)]),
    decreases s.len() - p,
{
    if p < s.len() && keep(s[p]) {
        lemma_scan_end_bounds(s, p + 1, keep);
    }
}

/// A run that ends where `keep` first fails is the one `scan_end` finds.
pub proof fn lemma_scan_end_at(s: Seq<char>, p: int, q: int, keep: spec_fn(char) -> bool)
    requires
        0 <= p <= q <= s.len(),
        forall|i: int| p <= i < q ==> keep(#[trigger] s[i]),
        q < s.len() ==> !keep(s[q]),
    ensures
        scan_end(s, p, keep) == q,
    decreases q - p,
{
    if p < q {
        assert(keep(s[p]));
        lemma_scan_end_at(s, p + 1, q, keep);
    }
}

/// `t` occurs in `s` at `p`.
pub open spec fn has_prefix(s: Seq<char>, p: int, t: Seq<char>) -> bool {
    0 <= p && p + t.len() <= s.len() && s.subrange(p, p + t.len()) == t
}

/// The character at `p`, if `p` is inside `s`.
pub open spec fn found_at(s: Seq<char>, p: int) -> Option<char> {
    if 0 <= p < s.len() {
        Some(s[p])
    } else {
        None
    }
}

/// Consume the token `t` at `p`.
pub open spec fn expect_at(s: Seq<char>, p: int, t: Seq<char>) -> Result<int, Fault> {
    if has_prefix(s, p, t) {
        Ok(p + t.len())
    } else {
        Err(Fault::UnexpectedToken { expected: t, offset: p, found: found_at(s, p) })
    }
}

/// The first position at or after `p` where a comment closes.
pub open spec fn close_at(s: Seq<char>, p: int) -> Option<int>
    decreases s.len() - p,
{
    if p < 0 || p + 3 > s.len() {
        None
    } else if has_prefix(s, p, comment_close()) {
        Some(p)
    } else {
        close_at(s, p + 1)
    }
}

/// A comment starting at `p` (where `<!--` stands).
pub open spec fn comment(s: Seq<char>, p: int) -> Step<Tree> {
    let c = p + 4;
    match close_at(s, c) {
        None => Err(Fault::UnterminatedComment { offset: p }),
        Some(e) => Ok((leaf(TreeKind::Comment(s.subrange(c, e))), e + 3)),
    }
}

/// A text run from `p` up to the next `<` or the end.
pub open spec fn text_run(s: Seq<char>, p: int) -> (Tree, int) {
    let e = scan_end(s, p, other_than('<'));
    (leaf(TreeKind::Text(s.subrange(p, e))), e)
}

/// A quoted attribute value starting at `p`.
pub open spec fn attr_value(s: Seq<char>, p: int) -> Step<Seq<char>> {
    if 0 <= p < s.len() && (s[p] == '"' || s[p] == '\'') {
        let e = scan_end(s, p + 1, other_than(s[p]));
        if e < s.len() {
            Ok((s.subrange(p + 1, e), e + 1))
        } else {
            Err(Fault::UnterminatedAttribute { offset: p })
        }
    } else {
        Err(Fault::InvalidAttributeSyntax { offset: p })
    }
}

/// One `name=value` pair starting at `p`.
pub open spec fn attr(s: Seq<char>, p: int) -> Step<(Seq<char>, Seq<char>)> {
    let n = scan_end(s, p, name_class());
    match expect_at(s, n, seq!['=']) {
        Err(f) => Err(f),
        Ok(q) => match attr_value(s, q) {
            Err(f) => Err(f),
            Ok((v, e)) => Ok(((s.subrange(p, n), v), e)),
        },
    }
}

/// Puts `front` before the items of a successful step.
pub open spec fn extend<A>(front: Seq<A>, r: Step<Seq<A>>) -> Step<Seq<A>> {
    match r {
        Ok((items, e)) => Ok((front + items, e)),
        Err(f) => Err(f),
    }
}

pub proof fn lemma_attr_ends(s: Seq<char>, p: int)
    requires
        0 <= p <= s.len(),
    ensures
        attr(s, p) is Ok ==> p < attr(s, p)->Ok_0.1 <= s.len(),
{
    lemma_scan_end_bounds(s, p, name_class());
    let n = scan_end(s, p, name_class());
    if has_prefix(s, n, seq!['=']) && 0 <= n + 1 < s.len() {
        lemma_scan_end_bounds(s, n + 2, other_than(s[n + 1]));
    }
}

/// The attribute pairs from `p` up to `>` or the end, in order of appearance.
pub open spec fn attr_list(s: Seq<char>, p: int) -> Step<Seq<(Seq<char>, Seq<char>)>>
    decreases s.len() - p,
{
    if p < 0 || p >= s.len() || s[p] == '>' {
        Ok((Seq::empty(), p))
    } else {
        let a = scan_end(s, p, space_class());
        match attr(s, a) {
            Err(f) => Err(f),
            Ok((kv, e)) => {
                let b = scan_end(s, e, space_class());
                proof {
                    lemma_scan_end_bounds(s, p, space_class());
                    lemma_attr_ends(s, a);
                    lemma_scan_end_bounds(s, e, space_class());
                }
                extend(seq![kv], attr_list(s, b))
            },
        }
    }
}

pub proof fn lemma_attr_list_ends(s: Seq<char>, p: int)
    requires
        0 <= p <= s.len(),
    ensures
        attr_list(s, p) is Ok ==> p <= attr_list(s, p)->Ok_0.1 <= s.len(),
    decreases s.len() - p,
{
    if !(p >= s.len() || s[p] == '>') {
        let a = scan_end(s, p, space_class());
        lemma_scan_end_bounds(s, p, space_class());
        lemma_attr_ends(s, a);
        if attr(s, a) is Ok {
            let e = attr(s, a)->Ok_0.1;
            lemma_scan_end_bounds(s, e, space_class());
            lemma_attr_list_ends(s, scan_end(s, e, space_class()));
        }
    }
}

/// One node at `p`: a comment, an element or a text run.
pub open spec fn node(s: Seq<char>, p: int) -> Step<Tree>
    decreases s.len() - p, 1int,
{
    if has_prefix(s, p, comment_open()) {
        comment(s, p)
    } else if has_prefix(s, p, seq!['<']) {
        element(s, p)
    } else {
        Ok(text_run(s, p))
    }
}

/// An element starting at `p` (where `<` stands), through its closing tag.
pub open spec fn element(s: Seq<char>, p: int) -> Step<Tree>
    decreases s.len() - p, 0int,
{
    let n0 = p + 1;
    let n = scan_end(s, n0, name_class());
    if n == n0 {
        Err(Fault::MalformedTag { offset: n0 })
    } else {
        match attr_list(s, n) {
            Err(f) => Err(f),
            Ok((pairs, a)) => match expect_at(s, a, seq!['>']) {
                Err(f) => Err(f),
                Ok(c) => {
                    proof {
                        if 0 <= n0 <= s.len() {
                            lemma_scan_end_bounds(s, n0, name_class());
                            lemma_attr_list_ends(s, n);
                        }
                    }
                    match children(s, c) {
                        Err(f) => Err(f),
                        Ok((kids, k)) => match expect_at(s, k, closing_open()) {
                            Err(f) => Err(f),
                            Ok(m) => {
                                let f = scan_end(s, m, name_class());
                                let opened = s.subrange(n0, n);
                                let found = s.subrange(m, f);
                                if found != opened {
                                    Err(Fault::MismatchedClosingTag { opened, found, offset: m })
                                } else {
                                    match expect_at(s, f, seq!['>']) {
                                        Err(fault) => Err(fault),
                                        Ok(z) => Ok(
                                            (
                                                Tree {
                                                    kind: TreeKind::Element {
                                                        tag: opened,
                                                        attrs: map_of(pairs),
                                                    },
                                                    children: kids,
                                                },
                                                z,
                                            ),
                                        ),
                                    }
                                }
                            },
                        },
                    }
                },
            },
        }
    }
}

/// The children of an element: nodes from `p` up to `</` or the end.
///
/// Every node consumes input, so the test `p < e <= s.len()` below always
/// holds (`lemma_node_advances`); it only makes the recursion visibly well-founded.
pub open spec fn children(s: Seq<char>, p: int) -> Step<Seq<Tree>>
    decreases s.len() - p, 2int,
{
    if p < 0 || p >= s.len() || has_prefix(s, p, closing_open()) {
        Ok((Seq::empty(), p))
    } else {
        match node(s, p) {
            Err(f) => Err(f),
            Ok((t, e)) => if p < e <= s.len() {
                extend(seq![t], children(s, e))
            } else {
                Ok((seq![t], e))
            },
        }
    }
}

/// The top-level nodes from `p` to the end.
pub open spec fn nodes_to_end(s: Seq<char>, p: int) -> Step<Seq<Tree>>
    decreases s.len() - p,
{
    if p < 0 || p >= s.len() {
        Ok((Seq::empty(), p))
    } else {
        match node(s, p) {
            Err(f) => Err(f),
            Ok((t, e)) => if p < e <= s.len() {
                extend(seq![t], nodes_to_end(s, e))
            } else {
                Ok((seq![t], e))
            },
        }
    }
}

/// The document that `s` denotes: the synthetic root over its top-level
/// nodes, or the first fault.
pub open spec fn document(s: Seq<char>) -> Result<Tree, Fault> {
    match nodes_to_end(s, 0) {
        Ok((kids, _)) => Ok(root(kids)),
        Err(f) => Err(f),
    }
}


pub proof fn lemma_close_at_bounds(s: Seq<char>, p: int)
    requires
        0 <= p,
    ensures
        close_at(s, p) is Some ==> p <= close_at(s, p)->Some_0 && close_at(s, p)->Some_0 + 3
            <= s.len(),
    decreases s.len() - p,
{
    if !(p + 3 > s.len()) && !has_prefix(s, p, comment_close()) {
        lemma_close_at_bounds(s, p + 1);
    }
}

/// A comment closes at `q` when no earlier position from `p` holds `-->`.
pub proof fn lemma_close_at_first(s: Seq<char>, p: int, q: int)
    requires
        0 <= p <= q,
        has_prefix(s, q, comment_close()),
        forall|i: int| p <= i < q ==> !has_prefix(s, i, comment_close()),
    ensures
        close_at(s, p) == Some(q),
    decreases q - p,
{
    if p < q {
        lemma_close_at_first(s, p + 1, q);
    }
}

/// Every node that parses consumes at least one character.
pub proof fn lemma_node_advances(s: Seq<char>, p: int)
    requires
        0 <= p < s.len(),
    ensures
        node(s, p) is Ok ==> p < node(s, p)->Ok_0.1 <= s.len(),
    decreases s.len() - p, 1int,
{
    if has_prefix(s, p, comment_open()) {
        lemma_close_at_bounds(s, p + 4);
    } else if has_prefix(s, p, seq!['<']) {
        lemma_element_advances(s, p);
    } else {
        assert(s.subrange(p, p + 1) =~= seq![s[p]]);
        lemma_scan_end_bounds(s, p + 1, other_than('<'));
    }
}

pub proof fn lemma_element_advances(s: Seq<char>, p: int)
    requires
        0 <= p < s.len(),
    ensures
        element(s, p) is Ok ==> p < element(s, p)->Ok_0.1 <= s.len(),
    decreases s.len() - p, 0int,
{
    let n = scan_end(s, p + 1, name_class());
    lemma_scan_end_bounds(s, p + 1, name_class());
    lemma_attr_list_ends(s, n);
    if n != p + 1 && attr_list(s, n) is Ok {
        let a = attr_list(s, n)->Ok_0.1;
        if has_prefix(s, a, seq!['>']) {
            let c = a + 1;
            lemma_children_ends(s, c);
            if children(s, c) is Ok {
                let k = children(s, c)->Ok_0.1;
                if has_prefix(s, k, closing_open()) {
                    lemma_scan_end_bounds(s, k + 2, name_class());
                }
            }
        }
    }
}

pub proof fn lemma_children_ends(s: Seq<char>, p: int)
    requires
        0 <= p <= s.len(),
    ensures
        children(s, p) is Ok ==> p <= children(s, p)->Ok_0.1 <= s.len(),
    decreases s.len() - p, 2int,
{
    if !(p >= s.len() || has_prefix(s, p, closing_open())) {
        lemma_node_advances(s, p);
        if node(s, p) is Ok {
            lemma_children_ends(s, node(s, p)->Ok_0.1);
        }
    }
}

/// Parsing is deterministic: equal inputs give the same tree or the same
/// fault.
pub proof fn lemma_parse_deterministic(a: Seq<char>, b: Seq<char>)
    requires
        a == b,
    ensures
        document(a) == document(b),
{
}

proof fn lemma_close_chars(s: Seq<char>, i: int)
    ensures
        has_prefix(s, i, comment_close()) <==> (0 <= i && i + 3 <= s.len() && s[i] == '-' && s[i
            + 1] == '-' && s[i + 2] == '>'),
{
    if 0 <= i && i + 3 <= s.len() {
        let w = s.subrange(i, i + 3);
        assert(w[0] == s[i] && w[1] == s[i + 1] && w[2] == s[i + 2]);
        if s[i] == '-' && s[i + 1] == '-' && s[i + 2] == '>' {
            assert(w =~= comment_close());
        }
    }
}

proof fn lemma_no_close_inside(c: Seq<char>, i: int)
    requires
        forall|j: int| #![trigger has_prefix(c, j, comment_close())] !has_prefix(c, j, comment_close()),
        4 <= i < 4 + c.len(),
    ensures
        !has_prefix(comment_open() + c + comment_close(), i, comment_close()),
{
    let s = comment_open() + c + comment_close();
    let n = c.len() as int;
    lemma_close_chars(s, i);
    if i + 3 <= 4 + n {
        assert(!has_prefix(c, i - 4, comment_close()));
        lemma_close_chars(c, i - 4);
        assert(s[i] == c[i - 4]);
        assert(s[i + 1] == c[i - 3]);
        assert(s[i + 2] == c[i - 2]);
    } else {
        assert(s[i + 2] == comment_close()[i + 2 - 4 - n]);
    }
}

/// A comment is kept verbatim, whitespace included: `<!--c-->` parses to
/// the root over one comment node holding exactly `c`, for every `c` in
/// which `-->` does not occur.
pub proof fn lemma_comment_verbatim(c: Seq<char>)
    requires
        forall|i: int| !has_prefix(c, i, comment_close()),
    ensures
        document(comment_open() + c + comment_close()) == Ok::<Tree, Fault>(
            root(seq![leaf(TreeKind::Comment(c))]),
        ),
{
    let s = comment_open() + c + comment_close();
    let n = c.len() as int;
    assert(s.subrange(0, 4) =~= comment_open());
    assert(s.subrange(4 + n, 7 + n) =~= comment_close());
    assert forall|i: int| 4 <= i < 4 + n implies !has_prefix(s, i, comment_close()) by {
        lemma_no_close_inside(c, i);
    }
    lemma_close_at_first(s, 4, 4 + n);
    assert(s.subrange(4, 4 + n) =~= c);
    let t = leaf(TreeKind::Comment(c));
    assert(comment(s, 0) == Ok::<(Tree, int), Fault>((t, 7 + n)));
    assert(node(s, 0) == Ok::<(Tree, int), Fault>((t, 7 + n)));
    assert(nodes_to_end(s, 7 + n) == Ok::<(Seq<Tree>, int), Fault>((Seq::<Tree>::empty(), 7 + n)));
    assert(seq![t] + Seq::<Tree>::empty() =~= seq![t]);
    assert(nodes_to_end(s, 0) == Ok::<(Seq<Tree>, int), Fault>((seq![t], 7 + n)));
}


/// The characters of `<tag attr="v">`.
pub open spec fn open_tag(tag: Seq<char>, attr: Seq<char>, v: Seq<char>) -> Seq<char> {
    seq!['<'] + tag + seq![' '] + attr + seq!['=', '"'] + v + seq!['"', '>']
}

/// The characters of `</tag>`.
pub open spec fn close_tag(tag: Seq<char>) -> Seq<char> {
    closing_open() + tag + seq!['>']
}

proof fn lemma_run(s: Seq<char>, p: int, w: Seq<char>, keep: spec_fn(char) -> bool)
    requires
        0 <= p,
        p + w.len() < s.len(),
        s.subrange(p, p + w.len()) == w,
        forall|i: int| 0 <= i < w.len() ==> keep(#[trigger] w[i]),
        !keep(s[p + w.len()]),
    ensures
        scan_end(s, p, keep) == p + w.len(),
{
    assert forall|i: int| p <= i < p + w.len() implies keep(#[trigger] s[i]) by {
        assert(s[i] == s.subrange(p, p + w.len())[i - p]);
    }
    lemma_scan_end_at(s, p, p + w.len(), keep);
}

proof fn lemma_layout(s: Seq<char>, tag: Seq<char>, attr: Seq<char>, v: Seq<char>, inner: Seq<char>)
    requires
        s == open_tag(tag, attr, v) + inner + close_tag(tag),
        tag.len() > 0,
    ensures
        ({
            let t = tag.len() as int;
            let an = attr.len() as int;
            let vn = v.len() as int;
            let k = open_tag(tag, attr, v).len() + inner.len() as int;
            &&& open_tag(tag, attr, v).len() == t + an + vn + 6
            &&& s.len() == k + t + 3
            &&& s.subrange(0, 1) == seq!['<']
            &&& s[1] == tag[0]
            &&& s.subrange(1, 1 + t) == tag
            &&& s[1 + t] == ' '
            &&& s.subrange(1 + t, 2 + t) == seq![' ']
            &&& s.subrange(2 + t, 2 + t + an) == attr
            &&& (an > 0 ==> s[2 + t] == attr[0])
            &&& s[2 + t + an] == '='
            &&& s.subrange(2 + t + an, 3 + t + an) == seq!['=']
            &&& s[3 + t + an] == '"'
            &&& s.subrange(4 + t + an, 4 + t + an + vn) == v
            &&& s[4 + t + an + vn] == '"'
            &&& s[5 + t + an + vn] == '>'
            &&& s.subrange(5 + t + an + vn, 6 + t + an + vn) == seq!['>']
            &&& s.subrange(k, k + 2) == closing_open()
            &&& s.subrange(k + 2, k + 2 + t) == tag
            &&& s[k + 2 + t] == '>'
            &&& s.subrange(k + 2 + t, k + 3 + t) == seq!['>']
            &&& framed(s, open_tag(tag, attr, v).len() as int, inner)
        }),
{
    let t = tag.len() as int;
    let an = attr.len() as int;
    let vn = v.len() as int;
    let k = open_tag(tag, attr, v).len() + inner.len() as int;
    let c = open_tag(tag, attr, v).len() as int;
    assert(s.subrange(k, k + 2)[0] == s[k]);
    assert(s.subrange(k, k + 2)[1] == s[k + 1]);
    assert forall|i: int| 0 <= i < inner.len() implies s[c + i] == #[trigger] inner[i] by {}
    assert(s.subrange(0, 1) =~= seq!['<']);
    assert(s.subrange(1, 1 + t) =~= tag);
    assert(s.subrange(1 + t, 2 + t) =~= seq![' ']);
    assert(s.subrange(2 + t, 2 + t + an) =~= attr);
    assert(s.subrange(2 + t + an, 3 + t + an) =~= seq!['=']);
    assert(s.subrange(4 + t + an, 4 + t + an + vn) =~= v);
    assert(s.subrange(5 + t + an + vn, 6 + t + an + vn) =~= seq!['>']);
    assert(s.subrange(k, k + 2) =~= closing_open());
    assert(s.subrange(k + 2, k + 2 + t) =~= tag);
    assert(s.subrange(k + 2 + t, k + 3 + t) =~= seq!['>']);
}

proof fn lemma_one_attr(s: Seq<char>, p: int, name: Seq<char>, v: Seq<char>)
    requires
        0 <= p,
        p + name.len() + v.len() + 5 <= s.len(),
        s[p] == ' ',
        s.subrange(p, p + 1) == seq![' '],
        s.subrange(p + 1, p + 1 + name.len()) == name,
        name.len() > 0 ==> s[p + 1] == name[0],
        s[p + 1 + name.len()] == '=',
        s.subrange(p + 1 + name.len(), p + 2 + name.len()) == seq!['='],
        s[p + 2 + name.len()] == '"',
        s.subrange(p + 3 + name.len(), p + 3 + name.len() + v.len()) == v,
        s[p + 3 + name.len() + v.len()] == '"',
        s[p + 4 + name.len() + v.len()] == '>',
        forall|i: int| 0 <= i < name.len() ==> is_name_char(#[trigger] name[i]),
        forall|i: int| 0 <= i < v.len() ==> #[trigger] v[i] != '"',
    ensures
        attr_list(s, p) == Ok::<(Seq<(Seq<char>, Seq<char>)>, int), Fault>(
            (seq![(name, v)], p + 4 + name.len() + v.len()),
        ),
{
    let an = name.len() as int;
    let vn = v.len() as int;
    let e = p + 4 + an + vn;
    lemma_run(s, p, seq![' '], space_class());
    lemma_run(s, p + 1, name, name_class());
    lemma_run(s, p + 3 + an, v, other_than('"'));
    assert(s.subrange(e, e) =~= Seq::<char>::empty());
    lemma_run(s, e, Seq::<char>::empty(), space_class());
    assert(attr(s, p + 1) == Ok::<((Seq<char>, Seq<char>), int), Fault>(((name, v), e)));
    assert(attr_list(s, e) == Ok::<(Seq<(Seq<char>, Seq<char>)>, int), Fault>(
        (Seq::empty(), e),
    ));
    assert(seq![(name, v)] + Seq::<(Seq<char>, Seq<char>)>::empty() =~= seq![(name, v)]);
}

proof fn lemma_element_at(
    s: Seq<char>,
    tag: Seq<char>,
    attr: Seq<char>,
    v: Seq<char>,
    k: int,
    kids: Seq<Tree>,
)
    requires
        tag.len() > 0,
        forall|i: int| 0 <= i < tag.len() ==> is_name_char(#[trigger] tag[i]),
        ({
            let t = tag.len() as int;
            let an = attr.len() as int;
            let vn = v.len() as int;
            let c = t + an + vn + 6;
            &&& c <= k
            &&& s.len() == k + t + 3
            &&& s.subrange(0, 1) == seq!['<']
            &&& s[1] == tag[0]
            &&& s.subrange(1, 1 + t) == tag
            &&& s[1 + t] == ' '
            &&& attr_list(s, 1 + t) == Ok::<(Seq<(Seq<char>, Seq<char>)>, int), Fault>(
                (seq![(attr, v)], 5 + t + an + vn),
            )
            &&& s.subrange(5 + t + an + vn, 6 + t + an + vn) == seq!['>']
            &&& children(s, c) == Ok::<(Seq<Tree>, int), Fault>((kids, k))
            &&& s.subrange(k, k + 2) == closing_open()
            &&& s.subrange(k + 2, k + 2 + t) == tag
            &&& s[k + 2 + t] == '>'
            &&& s.subrange(k + 2 + t, k + 3 + t) == seq!['>']
        }),
    ensures
        document(s) == Ok::<Tree, Fault>(
            root(
                seq![
                    Tree {
                        kind: TreeKind::Element { tag, attrs: Map::empty().insert(attr, v) },
                        children: kids,
                    },
                ],
            ),
        ),
{
    let t = tag.len() as int;
    let an = attr.len() as int;
    let vn = v.len() as int;
    let c = t + an + vn + 6;
    assert(!has_prefix(s, 0, comment_open())) by {
        if has_prefix(s, 0, comment_open()) {
            assert(s.subrange(0, 4)[1] == s[1]);
        }
    }
    lemma_run(s, 1, tag, name_class());
    lemma_run(s, k + 2, tag, name_class());
    let pairs = seq![(attr, v)];
    assert(pairs.drop_last() =~= Seq::<(Seq<char>, Seq<char>)>::empty());
    assert(pairs.last() == (attr, v));
    assert(map_of(Seq::<(Seq<char>, Seq<char>)>::empty()) == Map::<Seq<char>, Seq<char>>::empty());
    assert(map_of(pairs) == Map::<Seq<char>, Seq<char>>::empty().insert(attr, v));
    assert(expect_at(s, 5 + t + an + vn, seq!['>']) == Ok::<int, Fault>(c));
    assert(expect_at(s, k, closing_open()) == Ok::<int, Fault>(k + 2));
    assert(expect_at(s, k + 2 + t, seq!['>']) == Ok::<int, Fault>(k + 3 + t));
    let el = Tree {
        kind: TreeKind::Element { tag, attrs: Map::empty().insert(attr, v) },
        children: kids,
    };
    assert(element(s, 0) == Ok::<(Tree, int), Fault>((el, s.len() as int)));
    assert(node(s, 0) == Ok::<(Tree, int), Fault>((el, s.len() as int)));
    assert(seq![el] + Seq::<Tree>::empty() =~= seq![el]);
    assert(nodes_to_end(s, s.len() as int) == Ok::<(Seq<Tree>, int), Fault>(
        (Seq::<Tree>::empty(), s.len() as int),
    ));
    assert(nodes_to_end(s, 0) == Ok::<(Seq<Tree>, int), Fault>((seq![el], s.len() as int)));
}

/// An element `<tag attr="v">inner</tag>` alone in a document parses to
/// the root over one element whose tag is `tag`, whose attributes map
/// `attr` to `v`, and whose children are the nodes that `inner` parses to
/// as a document of its own.
pub proof fn lemma_element_structure(
    tag: Seq<char>,
    attr: Seq<char>,
    v: Seq<char>,
    inner: Seq<char>,
    kids: Seq<Tree>,
)
    requires
        tag.len() > 0,
        forall|i: int| 0 <= i < tag.len() ==> is_name_char(#[trigger] tag[i]),
        forall|i: int| 0 <= i < attr.len() ==> is_name_char(#[trigger] attr[i]),
        forall|i: int| 0 <= i < v.len() ==> #[trigger] v[i] != '"',
        document(inner) == Ok::<Tree, Fault>(root(kids)),
    ensures
        document(open_tag(tag, attr, v) + inner + close_tag(tag)) == Ok::<Tree, Fault>(
            root(
                seq![
                    Tree {
                        kind: TreeKind::Element { tag, attrs: Map::empty().insert(attr, v) },
                        children: kids,
                    },
                ],
            ),
        ),
{
    let s = open_tag(tag, attr, v) + inner + close_tag(tag);
    let t = tag.len() as int;
    let k = open_tag(tag, attr, v).len() + inner.len() as int;
    let c = open_tag(tag, attr, v).len() as int;
    lemma_layout(s, tag, attr, v, inner);
    lemma_one_attr(s, 1 + t, attr, v);
    lemma_content_in_place(s, c, inner, 0);
    lemma_element_at(s, tag, attr, v, k, kids);
}


/// `inner` stands in `s` at `off`, and a closing tag opener follows it.
pub open spec fn framed(s: Seq<char>, off: int, inner: Seq<char>) -> bool {
    &&& 0 <= off
    &&& off + inner.len() + 2 <= s.len()
    &&& forall|i: int| 0 <= i < inner.len() ==> s[off + i] == #[trigger] inner[i]
    &&& s[off + inner.len()] == '<'
    &&& s[off + inner.len() + 1] == '/'
}

proof fn lemma_scan_shift(s: Seq<char>, off: int, inner: Seq<char>, i: int, keep: spec_fn(char) -> bool)
    requires
        framed(s, off, inner),
        0 <= i <= inner.len(),
        !keep('<') || scan_end(inner, i, keep) < inner.len(),
    ensures
        scan_end(s, off + i, keep) == off + scan_end(inner, i, keep),
    decreases inner.len() - i,
{
    if i < inner.len() {
        assert(s[off + i] == inner[i]);
        if keep(inner[i]) {
            lemma_scan_shift(s, off, inner, i + 1, keep);
        }
    }
}

proof fn lemma_prefix_shift(s: Seq<char>, off: int, inner: Seq<char>, i: int, t: Seq<char>)
    requires
        framed(s, off, inner),
        0 <= i,
        i + t.len() <= inner.len(),
    ensures
        has_prefix(s, off + i, t) == has_prefix(inner, i, t),
{
    assert forall|j: int| 0 <= j < t.len() implies #[trigger] s.subrange(off + i, off + i + t.len())[j]
        == inner.subrange(i, i + t.len())[j] by {
        assert(s[off + i + j] == inner[i + j]);
    }
    assert(s.subrange(off + i, off + i + t.len()) =~= inner.subrange(i, i + t.len()));
}

proof fn lemma_close_at_shift(s: Seq<char>, off: int, inner: Seq<char>, c: int)
    requires
        framed(s, off, inner),
        0 <= c,
        close_at(inner, c) is Some,
    ensures
        close_at(s, off + c) == Some(off + close_at(inner, c)->Some_0),
    decreases inner.len() - c,
{
    lemma_prefix_shift(s, off, inner, c, comment_close());
    if !has_prefix(inner, c, comment_close()) {
        lemma_close_at_shift(s, off, inner, c + 1);
    }
}

proof fn lemma_attr_shift(s: Seq<char>, off: int, inner: Seq<char>, p: int)
    requires
        framed(s, off, inner),
        0 <= p <= inner.len(),
        attr(inner, p) is Ok,
    ensures
        attr(s, off + p) == Ok::<((Seq<char>, Seq<char>), int), Fault>(
            (attr(inner, p)->Ok_0.0, off + attr(inner, p)->Ok_0.1),
        ),
{
    let n = scan_end(inner, p, name_class());
    lemma_scan_end_bounds(inner, p, name_class());
    lemma_scan_shift(s, off, inner, p, name_class());
    lemma_prefix_shift(s, off, inner, n, seq!['=']);
    let q = n + 1;
    let e = scan_end(inner, q + 1, other_than(inner[q]));
    lemma_scan_end_bounds(inner, q + 1, other_than(inner[q]));
    assert(s[off + q] == inner[q]);
    lemma_scan_shift(s, off, inner, q + 1, other_than(inner[q]));
    assert(s.subrange(off + q + 1, off + e) =~= inner.subrange(q + 1, e)) by {
        assert forall|j: int| 0 <= j < e - q - 1 implies #[trigger] s.subrange(off + q + 1, off + e)[j]
            == inner.subrange(q + 1, e)[j] by {
            assert(s[off + q + 1 + j] == inner[q + 1 + j]);
        }
    }
    assert(s.subrange(off + p, off + n) =~= inner.subrange(p, n)) by {
        assert forall|j: int| 0 <= j < n - p implies #[trigger] s.subrange(off + p, off + n)[j]
            == inner.subrange(p, n)[j] by {
            assert(s[off + p + j] == inner[p + j]);
        }
    }
}

proof fn lemma_attr_list_shift(s: Seq<char>, off: int, inner: Seq<char>, p: int)
    requires
        framed(s, off, inner),
        0 <= p <= inner.len(),
        attr_list(inner, p) is Ok,
        attr_list(inner, p)->Ok_0.1 < inner.len(),
    ensures
        attr_list(s, off + p) == Ok::<(Seq<(Seq<char>, Seq<char>)>, int), Fault>(
            (attr_list(inner, p)->Ok_0.0, off + attr_list(inner, p)->Ok_0.1),
        ),
    decreases inner.len() - p,
{
    if p < inner.len() {
        assert(s[off + p] == inner[p]);
        if inner[p] != '>' {
            let a = scan_end(inner, p, space_class());
            lemma_scan_end_bounds(inner, p, space_class());
            lemma_scan_shift(s, off, inner, p, space_class());
            lemma_attr_ends(inner, a);
            lemma_attr_shift(s, off, inner, a);
            let e = attr(inner, a)->Ok_0.1;
            lemma_scan_end_bounds(inner, e, space_class());
            lemma_scan_shift(s, off, inner, e, space_class());
            let b = scan_end(inner, e, space_class());
            lemma_attr_list_shift(s, off, inner, b);
        }
    }
}


proof fn lemma_node_shift(s: Seq<char>, off: int, inner: Seq<char>, p: int)
    requires
        framed(s, off, inner),
        0 <= p < inner.len(),
        node(inner, p) is Ok,
    ensures
        node(s, off + p) == Ok::<(Tree, int), Fault>(
            (node(inner, p)->Ok_0.0, off + node(inner, p)->Ok_0.1),
        ),
    decreases inner.len() - p, 1int,
{
    let n = inner.len() as int;
    assert(s[off + p] == inner[p]);
    if p + 4 <= n {
        lemma_prefix_shift(s, off, inner, p, comment_open());
    } else {
        assert(!has_prefix(s, off + p, comment_open())) by {
            if has_prefix(s, off + p, comment_open()) {
                let w = s.subrange(off + p, off + p + 4);
                assert(w[n - p] == s[off + n]);
            }
        }
    }
    lemma_prefix_shift(s, off, inner, p, seq!['<']);
    if has_prefix(inner, p, comment_open()) {
        lemma_close_at_shift(s, off, inner, p + 4);
        let e = close_at(inner, p + 4)->Some_0;
        lemma_close_at_bounds(inner, p + 4);
        assert(s.subrange(off + p + 4, off + e) =~= inner.subrange(p + 4, e)) by {
            assert forall|j: int| 0 <= j < e - p - 4 implies #[trigger] s.subrange(
                off + p + 4,
                off + e,
            )[j] == inner.subrange(p + 4, e)[j] by {
                assert(s[off + p + 4 + j] == inner[p + 4 + j]);
            }
        }
    } else if has_prefix(inner, p, seq!['<']) {
        lemma_element_shift(s, off, inner, p);
    } else {
        let e = scan_end(inner, p, other_than('<'));
        lemma_scan_end_bounds(inner, p, other_than('<'));
        lemma_scan_shift(s, off, inner, p, other_than('<'));
        assert(s.subrange(off + p, off + e) =~= inner.subrange(p, e)) by {
            assert forall|j: int| 0 <= j < e - p implies #[trigger] s.subrange(off + p, off + e)[j]
                == inner.subrange(p, e)[j] by {
                assert(s[off + p + j] == inner[p + j]);
            }
        }
    }
}

proof fn lemma_element_shift(s: Seq<char>, off: int, inner: Seq<char>, p: int)
    requires
        framed(s, off, inner),
        0 <= p < inner.len(),
        element(inner, p) is Ok,
    ensures
        element(s, off + p) == Ok::<(Tree, int), Fault>(
            (element(inner, p)->Ok_0.0, off + element(inner, p)->Ok_0.1),
        ),
    decreases inner.len() - p, 0int,
{
    let l = inner.len() as int;
    let n = scan_end(inner, p + 1, name_class());
    lemma_scan_end_bounds(inner, p + 1, name_class());
    lemma_scan_shift(s, off, inner, p + 1, name_class());
    lemma_attr_list_ends(inner, n);
    let a = attr_list(inner, n)->Ok_0.1;
    lemma_prefix_shift(s, off, inner, a, seq!['>']);
    lemma_attr_list_shift(s, off, inner, n);
    let c = a + 1;
    lemma_children_ends(inner, c);
    let k = children(inner, c)->Ok_0.1;
    lemma_children_shift(s, off, inner, c);
    lemma_prefix_shift(s, off, inner, k, closing_open());
    let m = k + 2;
    let f = scan_end(inner, m, name_class());
    lemma_scan_end_bounds(inner, m, name_class());
    lemma_scan_shift(s, off, inner, m, name_class());
    lemma_prefix_shift(s, off, inner, f, seq!['>']);
    assert(s.subrange(off + p + 1, off + n) =~= inner.subrange(p + 1, n)) by {
        assert forall|j: int| 0 <= j < n - p - 1 implies #[trigger] s.subrange(off + p + 1, off + n)[j]
            == inner.subrange(p + 1, n)[j] by {
            assert(s[off + p + 1 + j] == inner[p + 1 + j]);
        }
    }
    assert(s.subrange(off + m, off + f) =~= inner.subrange(m, f)) by {
        assert forall|j: int| 0 <= j < f - m implies #[trigger] s.subrange(off + m, off + f)[j]
            == inner.subrange(m, f)[j] by {
            assert(s[off + m + j] == inner[m + j]);
        }
    }
}

proof fn lemma_children_shift(s: Seq<char>, off: int, inner: Seq<char>, p: int)
    requires
        framed(s, off, inner),
        0 <= p <= inner.len(),
        children(inner, p) is Ok,
        has_prefix(inner, children(inner, p)->Ok_0.1, closing_open()),
    ensures
        children(s, off + p) == Ok::<(Seq<Tree>, int), Fault>(
            (children(inner, p)->Ok_0.0, off + children(inner, p)->Ok_0.1),
        ),
    decreases inner.len() - p, 2int,
{
    let l = inner.len() as int;
    if p < l {
        if p + 2 <= l {
            lemma_prefix_shift(s, off, inner, p, closing_open());
        } else {
            assert(!has_prefix(s, off + p, closing_open())) by {
                if has_prefix(s, off + p, closing_open()) {
                    assert(s.subrange(off + p, off + p + 2)[1] == s[off + l]);
                }
            }
        }
        if !has_prefix(inner, p, closing_open()) {
            lemma_node_advances(inner, p);
            lemma_node_shift(s, off, inner, p);
            lemma_children_shift(s, off, inner, node(inner, p)->Ok_0.1);
        }
    }
}


/// Content that parses on its own as a sequence of nodes parses to the same
/// nodes where it stands before a closing tag.
pub proof fn lemma_content_in_place(s: Seq<char>, off: int, inner: Seq<char>, i: int)
    requires
        framed(s, off, inner),
        0 <= i <= inner.len(),
        nodes_to_end(inner, i) is Ok,
    ensures
        children(s, off + i) == Ok::<(Seq<Tree>, int), Fault>(
            (nodes_to_end(inner, i)->Ok_0.0, off + inner.len()),
        ),
    decreases inner.len() - i,
{
    let l = inner.len() as int;
    if i == l {
        assert(s.subrange(off + l, off + l + 2) =~= closing_open());
    } else {
        if i + 2 <= l {
            lemma_prefix_shift(s, off, inner, i, closing_open());
            if has_prefix(inner, i, closing_open()) {
                assert(inner.subrange(i, i + 2)[1] == inner[i + 1]);
                assert(!has_prefix(inner, i, comment_open())) by {
                    if has_prefix(inner, i, comment_open()) {
                        assert(inner.subrange(i, i + 4)[1] == inner[i + 1]);
                    }
                }
                assert(inner.subrange(i, i + 1) =~= seq!['<']) by {
                    assert(inner.subrange(i, i + 2)[0] == inner[i]);
                }
                assert(!is_name_char(inner[i + 1]));
                assert(scan_end(inner, i + 1, name_class()) == i + 1);
                assert(node(inner, i) is Err);
            }
        } else {
            assert(!has_prefix(s, off + i, closing_open())) by {
                if has_prefix(s, off + i, closing_open()) {
                    assert(s.subrange(off + i, off + i + 2)[1] == s[off + l]);
                }
            }
        }
        lemma_node_advances(inner, i);
        lemma_node_shift(s, off, inner, i);
        let e = node(inner, i)->Ok_0.1;
        lemma_content_in_place(s, off, inner, e);
    }
}

} // verus!
