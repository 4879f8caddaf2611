//! Document nodes and the recursive-descent parser that builds them.
use vstd::prelude::*;
use vstd::string::*;
use crate::attr_map::map_of;
pub use crate::attr_map::AttrMap;
use crate::grammar::{
    attr, attr_list, attr_value, children, close_at, closing_open, comment, comment_open, document,
    element, expect_at, extend, found_at, has_prefix, is_name_char, is_space, lemma_scan_end_at,
    lemma_scan_end_bounds, leaf, name_class, node, nodes_to_end, other_than, root_tag, scan_end,
    space_class, text_run, lemma_attr_ends, Fault, Step, Tree, TreeKind,
};

verus! {

/// Relies on String::push: the character is appended at the end.
pub assume_specification[ String::push ](s: &mut String, ch: char)
    ensures
        final(s)@ == old(s)@.push(ch),
;

/// Data of an element node.
#[derive(Debug)]
pub struct ElementData {
    pub tag_name: String,
    pub attributes: AttrMap,
}

/// What a node is.
#[derive(Debug)]
pub enum NodeType {
    Element(ElementData),
    Text(String),
    Comment(String),
}

/// A node of a document tree; it owns its children.
#[derive(Debug)]
pub struct Node {
    pub node_type: NodeType,
    pub children: Vec<Node>,
}

impl NodeType {
    pub open spec fn view(&self) -> TreeKind {
        match self {
            NodeType::Element(d) => TreeKind::Element { tag: d.tag_name@, attrs: d.attributes@ },
            NodeType::Text(t) => TreeKind::Text(t@),
            NodeType::Comment(c) => TreeKind::Comment(c@),
        }
    }
}

impl Node {
    /// The node as a tree value.
    pub open spec fn view(&self) -> Tree
        decreases self, 1int,
    {
        proof {
            broadcast use vstd::std_specs::vec::axiom_vec_decreases_to_view;

        }
        Tree { kind: self.node_type.view(), children: trees_of(self.children@) }
    }
}

/// The trees of a sequence of nodes.
pub open spec fn trees_of(ns: Seq<Node>) -> Seq<Tree>
    decreases ns, 0int,
{
    if ns.len() == 0 {
        Seq::empty()
    } else {
        proof {
            vstd::seq::axiom_seq_len_decreases(ns, ns.drop_last());
            broadcast use vstd::seq::axiom_seq_index_decreases;

        }
        trees_of(ns.drop_last()).push(ns.last().view())
    }
}

proof fn lemma_trees_of_push(ns: Seq<Node>, n: Node)
    ensures
        trees_of(ns.push(n)) == trees_of(ns).push(n@),
{
    assert(ns.push(n).drop_last() =~= ns);
}

proof fn lemma_extend_push<A>(front: Seq<A>, x: A, r: Step<Seq<A>>)
    ensures
        extend(front, extend(seq![x], r)) == extend(front.push(x), r),
{
    if let Ok((items, e)) = r {
        assert(front + (seq![x] + items) =~= front.push(x) + items);
    }
}

proof fn lemma_extend_nothing<A>(r: Step<Seq<A>>)
    ensures
        extend(Seq::<A>::empty(), r) == r,
{
    if let Ok((items, e)) = r {
        assert(Seq::<A>::empty() + items =~= items);
    }
}

proof fn lemma_extend_empty<A>(front: Seq<A>, e: int)
    ensures
        extend(front, Ok((Seq::<A>::empty(), e))) == Ok::<(Seq<A>, int), Fault>((front, e)),
{
    assert(front + Seq::<A>::empty() =~= front);
}

/// A failed parse.
#[derive(Debug)]
#[allow(inconsistent_fields)]
pub enum ParseError {
    /// A token was required at `offset`; `found` is the character there.
    UnexpectedToken { expected: String, offset: usize, found: Option<char> },
    /// An element opens without a tag name.
    MalformedTag { offset: usize },
    /// The closing tag names another element than the one open.
    MismatchedClosingTag { opened: String, found: String, offset: usize },
    /// A comment that opens at `offset` never closes.
    UnterminatedComment { offset: usize },
    /// A quoted value that opens at `offset` never closes.
    UnterminatedAttribute { offset: usize },
    /// An attribute value without an opening quote.
    InvalidAttributeSyntax { offset: usize },
}

impl ParseError {
    pub open spec fn view(&self) -> Fault {
        match self {
            ParseError::UnexpectedToken { expected, offset, found } => Fault::UnexpectedToken {
                expected: expected@,
                offset: *offset as int,
                found: *found,
            },
            ParseError::MalformedTag { offset } => Fault::MalformedTag { offset: *offset as int },
            ParseError::MismatchedClosingTag { opened, found, offset } =>
                Fault::MismatchedClosingTag { opened: opened@, found: found@, offset: *offset as int },
            ParseError::UnterminatedComment { offset } => Fault::UnterminatedComment {
                offset: *offset as int,
            },
            ParseError::UnterminatedAttribute { offset } => Fault::UnterminatedAttribute {
                offset: *offset as int,
            },
            ParseError::InvalidAttributeSyntax { offset } => Fault::InvalidAttributeSyntax {
                offset: *offset as int,
            },
        }
    }
}

/// A text node.
pub fn text(data: String) -> (r: Node)
    ensures
        r@ == leaf(TreeKind::Text(data@)),
{
    let r = Node { node_type: NodeType::Text(data), children: Vec::new() };
    assert(r.children@ =~= Seq::<Node>::empty());
    r
}

/// An element node.
pub fn elem(tag_name: String, attrs: AttrMap, children: Vec<Node>) -> (r: Node)
    ensures
        r@ == (Tree {
            kind: TreeKind::Element { tag: tag_name@, attrs: attrs@ },
            children: trees_of(children@),
        }),
{
    Node { children, node_type: NodeType::Element(ElementData { tag_name, attributes: attrs }) }
}

fn is_name(c: char) -> (r: bool)
    ensures
        r == is_name_char(c),
{
    ('a' <= c && c <= 'z') || ('A' <= c && c <= 'Z') || ('0' <= c && c <= '9')
}

fn is_whitespace(c: char) -> (r: bool)
    ensures
        r == is_space(c),
{
    let n = c as u32;
    (0x09 <= n && n <= 0x0D) || n == 0x20 || n == 0x85 || n == 0xA0 || n == 0x1680 || (0x2000
        <= n && n <= 0x200A) || n == 0x2028 || n == 0x2029 || n == 0x202F || n == 0x205F || n
        == 0x3000
}

/// The characters of `s`, in order.
fn chars_of(s: &str) -> (r: Vec<char>)
    ensures
        r@ == s@,
{
    let mut v: Vec<char> = Vec::new();
    for c in it: s.chars()
        invariant
            v@ == it.seq().take(it.index() as int),
    {
        v.push(c);
    }
    assert(v@ =~= s@);
    v
}

/// A scanning position over the characters of an input.
pub struct Parser {
    pos: usize,
    input: Vec<char>,
}

impl Parser {
    /// The input, as characters.
    pub closed spec fn chars(&self) -> Seq<char> {
        self.input@
    }

    /// The position: how many characters lie before it.
    pub closed spec fn offset(&self) -> int {
        self.pos as int
    }

    #[verifier::type_invariant]
    closed spec fn inside(&self) -> bool {
        self.pos <= self.input.len()
    }

    /// A parser at the start of `input`.
    pub fn new(input: &str) -> (r: Parser)
        ensures
            r.chars() == input@,
            r.offset() == 0,
    {
        Parser { pos: 0, input: chars_of(input) }
    }

    /// A parser at character position `pos` of `input`.
    pub fn with_position(input: &str, pos: usize) -> (r: Parser)
        requires
            pos <= input@.len(),
        ensures
            r.chars() == input@,
            r.offset() == pos,
    {
        Parser { pos, input: chars_of(input) }
    }

    /// The position, in characters.
    pub fn position(&self) -> (r: usize)
        ensures
            r == self.offset(),
    {
        self.pos
    }

    /// True when the whole input has been consumed.
    pub fn eof(&self) -> (r: bool)
        ensures
            r == (self.offset() >= self.chars().len()),
            r ==> self.offset() == self.chars().len(),
    {
        proof {
            use_type_invariant(self);
        }
        self.pos >= self.input.len()
    }

    /// The character at the position, if any.
    pub fn next_char(&self) -> (r: Option<char>)
        ensures
            r == found_at(self.chars(), self.offset()),
    {
        if self.pos < self.input.len() {
            Some(self.input[self.pos])
        } else {
            None
        }
    }

    /// True when the remaining input begins with `prefix`.
    pub fn starts_with(&self, prefix: &str) -> (r: bool)
        ensures
            r == has_prefix(self.chars(), self.offset(), prefix@),
    {
        proof {
            use_type_invariant(self);
        }
        let t = chars_of(prefix);
        if t.len() > self.input.len() - self.pos {
            return false;
        }
        let mut i: usize = 0;
        while i < t.len()
            invariant
                t@ == prefix@,
                self.pos + t.len() <= self.input.len(),
                i <= t.len(),
                forall|j: int| 0 <= j < i ==> self.input@[self.pos + j] == #[trigger] t@[j],
            decreases t.len() - i,
        {
            if self.input[self.pos + i] != t[i] {
                assert(self.chars().subrange(self.offset(), self.offset() + t.len())[i as int]
                    != t@[i as int]);
                return false;
            }
            i = i + 1;
        }
        assert(self.chars().subrange(self.offset(), self.offset() + t.len()) =~= t@);
        true
    }

    /// Takes the character at the position, if any, and moves past it.
    pub fn consume_next_char(&mut self) -> (r: Option<char>)
        ensures
            final(self).chars() == old(self).chars(),
            r == found_at(old(self).chars(), old(self).offset()),
            final(self).offset() == old(self).offset() + if r is Some {
                1int
            } else {
                0int
            },
    {
        if self.pos < self.input.len() {
            let c = self.input[self.pos];
            self.pos = self.pos + 1;
            Some(c)
        } else {
            None
        }
    }

    /// Takes the longest run of characters from the position that `test`
    /// accepts, and returns it.
    pub fn consume_while<F: Fn(char) -> bool>(&mut self, test: F) -> (r: String)
        requires
            forall|c: char| #[trigger] test.requires((c,)),
        ensures
            final(self).chars() == old(self).chars(),
            old(self).offset() <= final(self).offset() <= old(self).chars().len(),
            forall|i: int|
                old(self).offset() <= i < final(self).offset() ==> test.ensures(
                    (#[trigger] old(self).chars()[i],),
                    true,
                ),
            final(self).offset() < old(self).chars().len() ==> test.ensures(
                (old(self).chars()[final(self).offset()],),
                false,
            ),
            r@ == old(self).chars().subrange(old(self).offset(), final(self).offset()),
    {
        proof {
            use_type_invariant(&*self);
        }
        let start = self.pos;
        let mut result = String::new();
        loop
            invariant
                self.input@ == old(self).input@,
                start == old(self).pos,
                start <= self.pos <= self.input.len(),
                forall|c: char| #[trigger] test.requires((c,)),
                forall|i: int| start <= i < self.pos ==> test.ensures((#[trigger] self.input@[i],), true),
                result@ == self.input@.subrange(start as int, self.pos as int),
            ensures
                self.input@ == old(self).input@,
                start <= self.pos <= self.input.len(),
                forall|i: int| start <= i < self.pos ==> test.ensures((#[trigger] self.input@[i],), true),
                self.pos < self.input.len() ==> test.ensures((self.input@[self.pos as int],), false),
                result@ == self.input@.subrange(start as int, self.pos as int),
            decreases self.input.len() - self.pos,
        {
            if self.pos >= self.input.len() {
                break;
            }
            let c = self.input[self.pos];
            let keep = test(c);
            if !keep {
                break;
            }
            result.push(c);
            self.pos = self.pos + 1;
            assert(result@ =~= self.input@.subrange(start as int, self.pos as int));
        }
        result
    }

    /// Skips whitespace.
    pub fn consume_whitespace(&mut self)
        ensures
            final(self).chars() == old(self).chars(),
            old(self).offset() <= final(self).offset(),
            final(self).offset() == scan_end(old(self).chars(), old(self).offset(), space_class()),
    {
        proof {
            use_type_invariant(&*self);
        }
        let ghost s = self.chars();
        let ghost p = self.offset();
        self.consume_while(|c: char| -> (b: bool) ensures b == is_space(c) { is_whitespace(c) });
        proof {
            lemma_scan_end_at(s, p, self.offset(), space_class());
        }
    }

    /// Consumes `s` if the remaining input begins with it.
    pub fn expect(&mut self, s: &str) -> (r: Result<(), ParseError>)
        ensures
            final(self).chars() == old(self).chars(),
            match expect_at(old(self).chars(), old(self).offset(), s@) {
                Ok(q) => r is Ok && final(self).offset() == q,
                Err(f) => r is Err && r->Err_0@ == f && final(self).offset() == old(self).offset(),
            },
    {
        proof {
            use_type_invariant(&*self);
        }
        if self.starts_with(s) {
            let n = s.unicode_len();
            self.pos = self.pos + n;
            Ok(())
        } else {
            Err(ParseError::UnexpectedToken { expected: s.to_owned(), offset: self.pos, found: self.next_char() })
        }
    }

    /// The characters from `from` up to `to`, as a string.
    fn slice_string(&self, from: usize, to: usize) -> (r: String)
        requires
            from <= to <= self.chars().len(),
        ensures
            r@ == self.chars().subrange(from as int, to as int),
    {
        let mut r = String::new();
        let mut i: usize = from;
        while i < to
            invariant
                from <= i <= to <= self.input.len(),
                r@ == self.input@.subrange(from as int, i as int),
            decreases to - i,
        {
            r.push(self.input[i]);
            i = i + 1;
            assert(r@ =~= self.input@.subrange(from as int, i as int));
        }
        r
    }

    /// A tag or attribute name: the longest run of ASCII letters and digits.
    pub fn parse_name(&mut self) -> (r: String)
        ensures
            final(self).chars() == old(self).chars(),
            old(self).offset() <= final(self).offset(),
            final(self).offset() == scan_end(old(self).chars(), old(self).offset(), name_class()),
            r@ == old(self).chars().subrange(old(self).offset(), final(self).offset()),
    {
        proof {
            use_type_invariant(&*self);
        }
        let ghost s = self.chars();
        let ghost p = self.offset();
        let name = self.consume_while(
            |c: char| -> (b: bool) ensures b == is_name_char(c) { is_name(c) },
        );
        proof {
            lemma_scan_end_at(s, p, self.offset(), name_class());
        }
        name
    }

    /// A text node: the characters up to the next `<` or the end.
    pub fn parse_text(&mut self) -> (r: Node)
        ensures
            final(self).chars() == old(self).chars(),
            (r@, final(self).offset()) == text_run(old(self).chars(), old(self).offset()),
    {
        proof {
            use_type_invariant(&*self);
        }
        let ghost s = self.chars();
        let ghost p = self.offset();
        let data = self.consume_while(|c: char| -> (b: bool) ensures b == (c != '<') { c != '<' });
        proof {
            lemma_scan_end_at(s, p, self.offset(), other_than('<'));
        }
        text(data)
    }

    /// A comment, where the remaining input begins with `<!--`.
    pub fn parse_comment(&mut self) -> (r: Result<Node, ParseError>)
        requires
            has_prefix(old(self).chars(), old(self).offset(), comment_open()),
        ensures
            final(self).chars() == old(self).chars(),
            old(self).offset() <= final(self).offset(),
            r is Ok ==> old(self).offset() < final(self).offset(),
            match comment(old(self).chars(), old(self).offset()) {
                Ok((t, e)) => r is Ok && r->Ok_0@ == t && final(self).offset() == e,
                Err(f) => r is Err && r->Err_0@ == f,
            },
    {
        proof {
            use_type_invariant(&*self);
        }
        let ghost s = self.chars();
        let start = self.pos;
        let c = start + 4;
        let mut e = c;
        loop
            invariant
                self.input@ == s,
                self.pos == start,
                c == start + 4,
                c <= e <= s.len(),
                close_at(s, e as int) == close_at(s, c as int),
            ensures
                e + 3 <= s.len(),
                has_prefix(s, e as int, seq!['-', '-', '>']),
                close_at(s, c as int) == Some(e as int),
            decreases s.len() - e,
        {
            if self.input.len() - e < 3 {
                return Err(ParseError::UnterminatedComment { offset: start });
            }
            if self.input[e] == '-' && self.input[e + 1] == '-' && self.input[e + 2] == '>' {
                assert(s.subrange(e as int, e + 3) =~= seq!['-', '-', '>']);
                break;
            }
            assert(s.subrange(e as int, e + 3)[0] == s[e as int]);
            assert(s.subrange(e as int, e + 3)[1] == s[e + 1]);
            assert(s.subrange(e as int, e + 3)[2] == s[e + 2]);
            e = e + 1;
        }
        let content = self.slice_string(c, e);
        self.pos = e + 3;
        let r = Node { node_type: NodeType::Comment(content), children: Vec::new() };
        assert(r.children@ =~= Seq::<Node>::empty());
        Ok(r)
    }

    /// A quoted attribute value: `"..."` or `'...'`.
    pub fn parse_attr_value(&mut self) -> (r: Result<String, ParseError>)
        ensures
            final(self).chars() == old(self).chars(),
            old(self).offset() <= final(self).offset(),
            match attr_value(old(self).chars(), old(self).offset()) {
                Ok((v, e)) => r is Ok && r->Ok_0@ == v && final(self).offset() == e,
                Err(f) => r is Err && r->Err_0@ == f,
            },
    {
        proof {
            use_type_invariant(&*self);
        }
        let ghost s = self.chars();
        let start = self.pos;
        if self.pos < self.input.len() && (self.input[self.pos] == '"' || self.input[self.pos]
            == '\'') {
            let q = self.input[self.pos];
            self.pos = self.pos + 1;
            let value = self.consume_while(
                move |c: char| -> (b: bool) ensures b == (c != q) { c != q },
            );
            proof {
                lemma_scan_end_at(s, start + 1, self.offset(), other_than(q));
            }
            if self.pos < self.input.len() {
                self.pos = self.pos + 1;
                Ok(value)
            } else {
                Err(ParseError::UnterminatedAttribute { offset: start })
            }
        } else {
            Err(ParseError::InvalidAttributeSyntax { offset: start })
        }
    }

    /// One `name=value` attribute.
    pub fn parse_attr(&mut self) -> (r: Result<(String, String), ParseError>)
        ensures
            final(self).chars() == old(self).chars(),
            old(self).offset() <= final(self).offset(),
            match attr(old(self).chars(), old(self).offset()) {
                Ok((kv, e)) => r is Ok && r->Ok_0.0@ == kv.0 && r->Ok_0.1@ == kv.1
                    && final(self).offset() == e,
                Err(f) => r is Err && r->Err_0@ == f,
            },
    {
        proof {
            reveal_strlit("=");
            assert("="@ =~= seq!['=']);
        }
        let name = self.parse_name();
        match self.expect("=") {
            Err(f) => Err(f),
            Ok(()) => match self.parse_attr_value() {
                Err(f) => Err(f),
                Ok(value) => Ok((name, value)),
            },
        }
    }

    /// Attributes up to `>` or the end of the input; a later value for a
    /// name replaces an earlier one.
    pub fn parse_attributes(&mut self) -> (r: Result<AttrMap, ParseError>)
        ensures
            final(self).chars() == old(self).chars(),
            old(self).offset() <= final(self).offset(),
            match attr_list(old(self).chars(), old(self).offset()) {
                Ok((pairs, e)) => r is Ok && r->Ok_0@ == map_of(pairs) && final(self).offset() == e,
                Err(f) => r is Err && r->Err_0@ == f,
            },
    {
        proof {
            use_type_invariant(&*self);
        }
        let ghost s = self.chars();
        let ghost begin = self.offset();
        let mut attrs = AttrMap::new();
        let ghost mut seen: Seq<(Seq<char>, Seq<char>)> = Seq::empty();
        assert(attr_list(s, begin) == extend(seen, attr_list(s, begin))) by {
            lemma_extend_nothing(attr_list(s, begin));
        }
        loop
            invariant
                s == old(self).chars(),
                begin == old(self).offset(),
                self.chars() == s,
                begin <= self.offset() <= s.len(),
                attrs@ == map_of(seen),
                attr_list(s, begin) == extend(seen, attr_list(s, self.offset())),
            decreases s.len() - self.offset(),
        {
            proof {
                use_type_invariant(&*self);
            }
            let at_close = match self.next_char() {
                Some(c) => c == '>',
                None => true,
            };
            if at_close {
                proof {
                    lemma_extend_empty(seen, self.offset());
                }
                return Ok(attrs);
            }
            let ghost q = self.offset();
            self.consume_whitespace();
            let ghost a = self.offset();
            match self.parse_attr() {
                Err(f) => {
                    return Err(f);
                },
                Ok((k, v)) => {
                    proof {
                        lemma_scan_end_bounds(s, q, space_class());
                        lemma_attr_ends(s, a);
                    }
                    self.consume_whitespace();
                    proof {
                        lemma_extend_push(seen, (k@, v@), attr_list(s, self.offset()));
                        assert(seen.push((k@, v@)).drop_last() =~= seen);
                        seen = seen.push((k@, v@));
                    }
                    attrs.insert(k, v);
                    proof {
                        use_type_invariant(&*self);
                    }
                },
            }
        }
    }

    /// One node, chosen by what the remaining input begins with: `<!--`
    /// starts a comment, `<` an element, anything else a text run.
    pub fn parse_node(&mut self) -> (r: Result<Node, ParseError>)
        ensures
            final(self).chars() == old(self).chars(),
            old(self).offset() <= final(self).offset(),
            r is Ok && old(self).offset() < old(self).chars().len() ==> old(self).offset()
                < final(self).offset(),
            match node(old(self).chars(), old(self).offset()) {
                Ok((t, e)) => r is Ok && r->Ok_0@ == t && final(self).offset() == e,
                Err(f) => r is Err && r->Err_0@ == f,
            },
        decreases old(self).chars().len() - old(self).offset(), 1int,
    {
        proof {
            use_type_invariant(&*self);
            reveal_strlit("<!--");
            reveal_strlit("<");
            assert("<!--"@ =~= comment_open());
            assert("<"@ =~= seq!['<']);
        }
        let ghost s = self.chars();
        let ghost p = self.offset();
        if self.starts_with("<!--") {
            self.parse_comment()
        } else if self.starts_with("<") {
            self.parse_element()
        } else {
            proof {
                if p < s.len() {
                    assert(s.subrange(p, p + 1) =~= seq![s[p]]);
                    lemma_scan_end_bounds(s, p + 1, other_than('<'));
                }
            }
            Ok(self.parse_text())
        }
    }

    /// An element, where the remaining input begins with `<`: its tag name,
    /// attributes, children and closing tag, which must name the same tag.
    pub fn parse_element(&mut self) -> (r: Result<Node, ParseError>)
        requires
            has_prefix(old(self).chars(), old(self).offset(), seq!['<']),
        ensures
            final(self).chars() == old(self).chars(),
            old(self).offset() <= final(self).offset(),
            r is Ok ==> old(self).offset() < final(self).offset(),
            match element(old(self).chars(), old(self).offset()) {
                Ok((t, e)) => r is Ok && r->Ok_0@ == t && final(self).offset() == e,
                Err(f) => r is Err && r->Err_0@ == f,
            },
        decreases old(self).chars().len() - old(self).offset(), 0int,
    {
        proof {
            use_type_invariant(&*self);
            reveal_strlit(">");
            reveal_strlit("</");
            assert(">"@ =~= seq!['>']);
            assert("</"@ =~= closing_open());
        }
        let ghost s = self.chars();
        self.pos = self.pos + 1;
        let name_start = self.pos;
        let tag_name = self.parse_name();
        if self.pos == name_start {
            return Err(ParseError::MalformedTag { offset: name_start });
        }
        let attrs = match self.parse_attributes() {
            Err(f) => {
                return Err(f);
            },
            Ok(a) => a,
        };
        match self.expect(">") {
            Err(f) => {
                return Err(f);
            },
            Ok(()) => {},
        }
        let children = match self.parse_children() {
            Err(f) => {
                return Err(f);
            },
            Ok(c) => c,
        };
        match self.expect("</") {
            Err(f) => {
                return Err(f);
            },
            Ok(()) => {},
        }
        let close_start = self.pos;
        let found = self.parse_name();
        if !(found == tag_name) {
            return Err(
                ParseError::MismatchedClosingTag { opened: tag_name, found, offset: close_start },
            );
        }
        match self.expect(">") {
            Err(f) => {
                return Err(f);
            },
            Ok(()) => {},
        }
        Ok(elem(tag_name, attrs, children))
    }

    /// Nodes up to a closing tag `</` or the end of the input.
    pub fn parse_children(&mut self) -> (r: Result<Vec<Node>, ParseError>)
        ensures
            final(self).chars() == old(self).chars(),
            old(self).offset() <= final(self).offset(),
            match children(old(self).chars(), old(self).offset()) {
                Ok((ts, e)) => r is Ok && trees_of(r->Ok_0@) == ts && final(self).offset() == e,
                Err(f) => r is Err && r->Err_0@ == f,
            },
        decreases old(self).chars().len() - old(self).offset(), 2int,
    {
        let ghost s = self.chars();
        let ghost begin = self.offset();
        let mut kids: Vec<Node> = Vec::new();
        assert(trees_of(kids@) =~= Seq::<Tree>::empty());
        proof {
            use_type_invariant(&*self);
            lemma_extend_nothing(children(s, begin));
        }
        loop
            invariant
                s == old(self).chars(),
                begin == old(self).offset(),
                self.chars() == s,
                begin <= self.offset() <= s.len(),
                children(s, begin) == extend(trees_of(kids@), children(s, self.offset())),
            decreases s.len() - self.offset(),
        {
            proof {
                reveal_strlit("</");
                assert("</"@ =~= closing_open());
            }
            if self.eof() || self.starts_with("</") {
                proof {
                    lemma_extend_empty(trees_of(kids@), self.offset());
                }
                return Ok(kids);
            }
            match self.parse_node() {
                Err(f) => {
                    return Err(f);
                },
                Ok(n) => {
                    proof {
                        use_type_invariant(&*self);
                        lemma_extend_push(trees_of(kids@), n@, children(s, self.offset()));
                        lemma_trees_of_push(kids@, n);
                    }
                    kids.push(n);
                },
            }
        }
    }
}

/// Parses a whole document: the synthetic `root` element over the
/// top-level nodes of `content`, or the first failure met, with no partial
/// tree. Nesting depth is not bounded: each level of nesting takes one level
/// of recursion.
pub fn parse(content: &str) -> (r: Result<Node, ParseError>)
    ensures
        match document(content@) {
            Ok(t) => r is Ok && r->Ok_0@ == t,
            Err(f) => r is Err && r->Err_0@ == f,
        },
        r is Ok ==> r->Ok_0@.kind == (TreeKind::Element {
            tag: root_tag(),
            attrs: Map::empty(),
        }),
{
    let ghost s = content@;
    let mut parser = Parser::new(content);
    let mut kids: Vec<Node> = Vec::new();
    assert(trees_of(kids@) =~= Seq::<Tree>::empty());
    proof {
        lemma_extend_nothing(nodes_to_end(s, 0));
    }
    loop
        invariant
            s == content@,
            parser.chars() == s,
            0 <= parser.offset() <= s.len(),
            nodes_to_end(s, 0) == extend(trees_of(kids@), nodes_to_end(s, parser.offset())),
        decreases s.len() - parser.offset(),
    {
        if parser.eof() {
            proof {
                lemma_extend_empty(trees_of(kids@), parser.offset());
                reveal_strlit("root");
                assert("root"@ =~= root_tag());
            }
            return Ok(elem("root".to_owned(), AttrMap::new(), kids));
        }
        match parser.parse_node() {
            Err(f) => {
                return Err(f);
            },
            Ok(n) => {
                proof {
                    use_type_invariant(&parser);
                    lemma_extend_push(trees_of(kids@), n@, nodes_to_end(s, parser.offset()));
                    lemma_trees_of_push(kids@, n);
                }
                kids.push(n);
            },
        }
    }
}

} // verus!
