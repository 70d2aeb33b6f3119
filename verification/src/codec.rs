//! JSON codec for the content tree.
//!
//! The serialized form of a node is one JSON object with the fields
//! `name`, `expanded`, `size`, `type`, `children` and `count`, in that
//! order; the node type is serialized under the key `type`, and `children`
//! is a JSON array of the same shape. [`json_of`] states the exact text,
//! [`to_json`] produces it, and [`from_json`] decodes it again.

use vstd::prelude::*;

use crate::tree::{ContentTreeNode, NodeModel, NodeType, models};

verus! {

/// The text that opens a node object, up to the opening quote of the name.
pub open spec fn lit_open_name() -> Seq<char> {
    "{\"name\":\""@
}

/// The text between the name and the `expanded` value.
pub open spec fn lit_expanded() -> Seq<char> {
    ",\"expanded\":"@
}

/// The text between the `expanded` value and the `size` value.
pub open spec fn lit_size() -> Seq<char> {
    ",\"size\":"@
}

/// The text between the `size` value and the type tag.
pub open spec fn lit_type() -> Seq<char> {
    ",\"type\":\""@
}

/// The text between the type tag and the children array.
pub open spec fn lit_children() -> Seq<char> {
    ",\"children\":["@
}

/// The text between the children array and the `count` value.
pub open spec fn lit_count() -> Seq<char> {
    ",\"count\":"@
}

/// The serialized form of a true `expanded` flag.
pub open spec fn lit_true() -> Seq<char> {
    "true"@
}

/// The serialized form of a false `expanded` flag.
pub open spec fn lit_false() -> Seq<char> {
    "false"@
}

/// The serialized directory tag, closing quote included.
pub open spec fn lit_directory() -> Seq<char> {
    "directory\""@
}

/// The serialized file tag, closing quote included.
pub open spec fn lit_file() -> Seq<char> {
    "file\""@
}

/// The escape of one character inside a JSON string: quote and backslash
/// get a backslash before them, everything else stands as itself.
pub open spec fn esc_char(c: char) -> Seq<char> {
    if c == '"' {
        seq!['\\', '"']
    } else if c == '\\' {
        seq!['\\', '\\']
    } else {
        seq![c]
    }
}

/// The escape of a whole string, character for character.
pub open spec fn esc(s: Seq<char>) -> Seq<char>
    decreases s.len(),
{
    if s.len() == 0 {
        Seq::empty()
    } else {
        esc_char(s[0]) + esc(s.drop_first())
    }
}

/// The decimal digit character for a value below ten.
pub open spec fn digit_char(d: nat) -> char {
    if d == 0 {
        '0'
    } else if d == 1 {
        '1'
    } else if d == 2 {
        '2'
    } else if d == 3 {
        '3'
    } else if d == 4 {
        '4'
    } else if d == 5 {
        '5'
    } else if d == 6 {
        '6'
    } else if d == 7 {
        '7'
    } else if d == 8 {
        '8'
    } else {
        '9'
    }
}

/// The decimal representation of a number, most significant digit first,
/// without leading zeros (a single `0` for zero).
pub open spec fn dec_rep(n: nat) -> Seq<char>
    decreases n,
{
    if n < 10 {
        seq![digit_char(n)]
    } else {
        dec_rep(n / 10) + seq![digit_char(n % 10)]
    }
}

/// The serialized form of the `expanded` flag.
pub open spec fn bool_tok(b: bool) -> Seq<char> {
    if b {
        lit_true()
    } else {
        lit_false()
    }
}

/// The serialized type tag, closing quote included.
pub open spec fn type_tok(t: NodeType) -> Seq<char> {
    match t {
        NodeType::Directory => lit_directory(),
        NodeType::File => lit_file(),
    }
}

/// The exact serialized text of one node.
pub open spec fn json_of(m: NodeModel) -> Seq<char>
    decreases m,
{
    lit_open_name() + esc(m.name) + seq!['"'] + lit_expanded() + bool_tok(m.expanded) + lit_size()
        + dec_rep(m.size as nat) + lit_type() + type_tok(m.node_type) + lit_children()
        + json_of_list(m.children) + seq![']'] + lit_count() + dec_rep(m.count as nat) + seq!['}']
}

/// The serialized text of a children array's contents: the elements,
/// separated by commas.
pub open spec fn json_of_list(ms: Seq<NodeModel>) -> Seq<char>
    decreases ms,
{
    if ms.len() == 0 {
        Seq::empty()
    } else {
        json_of(ms[0]) + json_of_tail(ms.drop_first())
    }
}

/// The serialized text of every element after the first, each preceded by
/// a comma.
pub open spec fn json_of_tail(ms: Seq<NodeModel>) -> Seq<char>
    decreases ms,
{
    if ms.len() == 0 {
        Seq::empty()
    } else {
        seq![','] + json_of(ms[0]) + json_of_tail(ms.drop_first())
    }
}

/// Escaping distributes over concatenation.
pub proof fn lemma_esc_concat(a: Seq<char>, b: Seq<char>)
    ensures
        esc(a + b) == esc(a) + esc(b),
    decreases a.len(),
{
    if a.len() == 0 {
        assert(a + b =~= b);
        assert(esc(a) + esc(b) =~= esc(b));
    } else {
        assert((a + b)[0] == a[0]);
        assert((a + b).drop_first() =~= a.drop_first() + b);
        lemma_esc_concat(a.drop_first(), b);
        assert(esc(a + b) =~= esc(a) + esc(b));
    }
}

/// The escape of a one-character string is that character's escape.
pub proof fn lemma_esc_single(c: char)
    ensures
        esc(seq![c]) == esc_char(c),
{
    assert(seq![c][0] == c);
    assert(seq![c].drop_first() =~= Seq::<char>::empty());
    assert(esc(Seq::<char>::empty()) == Seq::<char>::empty());
    assert(esc_char(c) + Seq::<char>::empty() =~= esc_char(c));
}

/// Escaping one more character appends that character's escape.
pub proof fn lemma_esc_push(s: Seq<char>, c: char)
    ensures
        esc(s.push(c)) == esc(s) + esc_char(c),
{
    assert(s.push(c) =~= s + seq![c]);
    lemma_esc_concat(s, seq![c]);
    lemma_esc_single(c);
}

/// Serializing one more child appends a comma and that child's text.
pub proof fn lemma_json_tail_push(ms: Seq<NodeModel>, m: NodeModel)
    ensures
        json_of_tail(ms.push(m)) == json_of_tail(ms) + (seq![','] + json_of(m)),
    decreases ms.len(),
{
    if ms.len() == 0 {
        assert(ms.push(m)[0] == m);
        assert(ms.push(m).drop_first() =~= Seq::<NodeModel>::empty());
        assert(json_of_tail(Seq::<NodeModel>::empty()) == Seq::<char>::empty());
        assert(json_of_tail(ms.push(m)) =~= json_of_tail(ms) + (seq![','] + json_of(m)));
    } else {
        assert(ms.push(m)[0] == ms[0]);
        assert(ms.push(m).drop_first() =~= ms.drop_first().push(m));
        lemma_json_tail_push(ms.drop_first(), m);
        assert(json_of_tail(ms.push(m)) =~= json_of_tail(ms) + (seq![','] + json_of(m)));
    }
}

/// Serializing one more child of a possibly empty array.
pub proof fn lemma_json_list_push(ms: Seq<NodeModel>, m: NodeModel)
    ensures
        ms.len() == 0 ==> json_of_list(ms.push(m)) == json_of(m),
        ms.len() > 0 ==> json_of_list(ms.push(m)) == json_of_list(ms) + (seq![','] + json_of(m)),
{
    if ms.len() == 0 {
        assert(ms.push(m)[0] == m);
        assert(ms.push(m).drop_first() =~= Seq::<NodeModel>::empty());
        assert(json_of(m) + json_of_tail(Seq::<NodeModel>::empty()) =~= json_of(m));
    } else {
        assert(ms.push(m)[0] == ms[0]);
        assert(ms.push(m).drop_first() =~= ms.drop_first().push(m));
        lemma_json_tail_push(ms.drop_first(), m);
        assert(json_of_list(ms.push(m)) =~= json_of_list(ms) + (seq![','] + json_of(m)));
    }
}

/// True when `lit` stands in `s` at position `i`.
pub open spec fn match_at(s: Seq<char>, i: int, lit: Seq<char>) -> bool {
    0 <= i && i + lit.len() <= s.len() && s.subrange(i, i + lit.len()) == lit
}

/// Consume `lit` at position `i`.
pub open spec fn parse_lit(s: Seq<char>, i: int, lit: Seq<char>) -> Option<int> {
    if match_at(s, i, lit) {
        Some(i + lit.len())
    } else {
        None
    }
}

/// Consume a string body up to and including its closing quote, undoing
/// the escapes; the result is the unescaped text and the position after
/// the quote.
pub open spec fn parse_string_body(s: Seq<char>, i: int) -> Option<(Seq<char>, int)>
    decreases s.len() - i,
{
    if i < 0 || i >= s.len() {
        None
    } else if s[i] == '"' {
        Some((Seq::empty(), i + 1))
    } else if s[i] == '\\' {
        if i + 1 < s.len() && (s[i + 1] == '"' || s[i + 1] == '\\') {
            match parse_string_body(s, i + 2) {
                Some(p) => Some((seq![s[i + 1]] + p.0, p.1)),
                None => None,
            }
        } else {
            None
        }
    } else {
        match parse_string_body(s, i + 1) {
            Some(p) => Some((seq![s[i]] + p.0, p.1)),
            None => None,
        }
    }
}

/// A decimal digit character.
pub open spec fn is_digit(c: char) -> bool {
    48 <= c as u32 && c as u32 <= 57
}

/// The value of a decimal digit character.
pub open spec fn digit_val(c: char) -> nat {
    (c as u32 - 48) as nat
}

/// Consume digits starting from the accumulated value `acc`, stopping at
/// the first character that is not a digit; fails on `u64` overflow.
pub open spec fn parse_digits(s: Seq<char>, i: int, acc: u64) -> Option<(u64, int)>
    decreases s.len() - i,
{
    if 0 <= i && i < s.len() && is_digit(s[i]) {
        if acc * 10 + digit_val(s[i]) <= u64::MAX {
            parse_digits(s, i + 1, (acc * 10 + digit_val(s[i])) as u64)
        } else {
            None
        }
    } else {
        Some((acc, i))
    }
}

/// Consume a decimal number of at least one digit.
pub open spec fn parse_number(s: Seq<char>, i: int) -> Option<(u64, int)> {
    if 0 <= i && i < s.len() && is_digit(s[i]) {
        parse_digits(s, i, 0)
    } else {
        None
    }
}

/// Consume the `expanded` value.
pub open spec fn parse_bool(s: Seq<char>, i: int) -> Option<(bool, int)> {
    if parse_lit(s, i, lit_true()) is Some {
        Some((true, parse_lit(s, i, lit_true())->0))
    } else if parse_lit(s, i, lit_false()) is Some {
        Some((false, parse_lit(s, i, lit_false())->0))
    } else {
        None
    }
}

/// Consume the type tag, closing quote included.
pub open spec fn parse_type(s: Seq<char>, i: int) -> Option<(NodeType, int)> {
    if parse_lit(s, i, lit_directory()) is Some {
        Some((NodeType::Directory, parse_lit(s, i, lit_directory())->0))
    } else if parse_lit(s, i, lit_file()) is Some {
        Some((NodeType::File, parse_lit(s, i, lit_file())->0))
    } else {
        None
    }
}

/// Clamp a forward position into `(i, s.len()]` so that termination of the
/// mutually recursive parsers is evident; on every position an accepting
/// parse hands forward, the clamp is the identity.
pub open spec fn adv(s: Seq<char>, i: int, j: int) -> int {
    if i < j && j <= s.len() {
        j
    } else {
        i + 1
    }
}

/// Consume one serialized node.
pub open spec fn parse_node(s: Seq<char>, i: int) -> Option<(NodeModel, int)>
    decreases s.len() - i, 0int,
{
    if i < 0 || i >= s.len() {
        None
    } else {
        let r1 = parse_lit(s, i, lit_open_name());
        if r1 is None {
            None
        } else {
            let r2 = parse_string_body(s, r1->0);
            if r2 is None {
                None
            } else {
                let (name, i2) = r2->0;
                let r3 = parse_lit(s, i2, lit_expanded());
                if r3 is None {
                    None
                } else {
                    let r4 = parse_bool(s, r3->0);
                    if r4 is None {
                        None
                    } else {
                        let (expanded, i4) = r4->0;
                        let r5 = parse_lit(s, i4, lit_size());
                        if r5 is None {
                            None
                        } else {
                            let r6 = parse_number(s, r5->0);
                            if r6 is None {
                                None
                            } else {
                                let (size, i6) = r6->0;
                                let r7 = parse_lit(s, i6, lit_type());
                                if r7 is None {
                                    None
                                } else {
                                    let r8 = parse_type(s, r7->0);
                                    if r8 is None {
                                        None
                                    } else {
                                        let (ty, i8) = r8->0;
                                        let r9 = parse_lit(s, i8, lit_children());
                                        if r9 is None {
                                            None
                                        } else {
                                            let r10 = parse_children(s, adv(s, i, r9->0));
                                            if r10 is None {
                                                None
                                            } else {
                                                let (children, i10) = r10->0;
                                                let r11 = parse_lit(s, i10, lit_count());
                                                if r11 is None {
                                                    None
                                                } else {
                                                    let r12 = parse_number(s, r11->0);
                                                    if r12 is None {
                                                        None
                                                    } else {
                                                        let (cv, i12) = r12->0;
                                                        if cv > usize::MAX {
                                                            None
                                                        } else {
                                                            let r13 = parse_lit(
                                                                s,
                                                                i12,
                                                                seq!['}'],
                                                            );
                                                            if r13 is None {
                                                                None
                                                            } else {
                                                                Some(
                                                                    (
                                                                        NodeModel {
                                                                            name: name,
                                                                            expanded: expanded,
                                                                            size: size,
                                                                            node_type: ty,
                                                                            children: children,
                                                                            count: cv as usize,
                                                                        },
                                                                        r13->0,
                                                                    ),
                                                                )
                                                            }
                                                        }
                                                    }
                                                }
                                            }
                                        }
                                    }
                                }
                            }
                        }
                    }
                }
            }
        }
    }
}

/// Consume the contents of a children array and its closing bracket,
/// starting right after the opening bracket.
pub open spec fn parse_children(s: Seq<char>, i: int) -> Option<(Seq<NodeModel>, int)>
    decreases s.len() - i, 1int,
{
    if i < 0 || i >= s.len() {
        None
    } else if s[i] == ']' {
        Some((Seq::empty(), i + 1))
    } else {
        let r = parse_node(s, i);
        if r is None {
            None
        } else {
            let (first, j) = r->0;
            let rr = parse_rest(s, adv(s, i, j));
            if rr is None {
                None
            } else {
                let (more, j2) = rr->0;
                Some((seq![first] + more, j2))
            }
        }
    }
}

/// Consume the remainder of a children array after one element: either the
/// closing bracket, or a comma and another element, repeatedly.
pub open spec fn parse_rest(s: Seq<char>, i: int) -> Option<(Seq<NodeModel>, int)>
    decreases s.len() - i, 1int,
{
    if i < 0 || i >= s.len() {
        None
    } else if s[i] == ']' {
        Some((Seq::empty(), i + 1))
    } else if s[i] == ',' {
        let r = parse_node(s, adv(s, i, i + 1));
        if r is None {
            None
        } else {
            let (first, j) = r->0;
            let rr = parse_rest(s, adv(s, i, j));
            if rr is None {
                None
            } else {
                let (more, j2) = rr->0;
                Some((seq![first] + more, j2))
            }
        }
    } else {
        None
    }
}

/// The decoding of a whole text: one node, consuming every character.
pub open spec fn spec_decode(s: Seq<char>) -> Option<NodeModel> {
    match parse_node(s, 0) {
        Some(p) => if p.1 == s.len() {
            Some(p.0)
        } else {
            None
        },
        None => None,
    }
}

/// Relies on `String::push`: appends exactly the one character.
#[verifier::external_body]
fn push_char(out: &mut String, c: char)
    ensures
        final(out)@ == old(out)@.push(c),
{
    out.push(c);
}

/// The decimal digit character for a value below ten, executably.
fn digit_char_exec(d: u64) -> (c: char)
    requires
        d < 10,
    ensures
        c == digit_char(d as nat),
{
    if d == 0 {
        '0'
    } else if d == 1 {
        '1'
    } else if d == 2 {
        '2'
    } else if d == 3 {
        '3'
    } else if d == 4 {
        '4'
    } else if d == 5 {
        '5'
    } else if d == 6 {
        '6'
    } else if d == 7 {
        '7'
    } else if d == 8 {
        '8'
    } else {
        '9'
    }
}

/// Append the decimal representation of `n`.
fn append_u64(out: &mut String, n: u64)
    ensures
        final(out)@ == old(out)@ + dec_rep(n as nat),
    decreases n,
{
    if n < 10 {
        let c = digit_char_exec(n);
        push_char(out, c);
        proof {
            assert(old(out)@.push(digit_char(n as nat)) =~= old(out)@ + dec_rep(n as nat));
        }
    } else {
        append_u64(out, n / 10);
        let c = digit_char_exec(n % 10);
        push_char(out, c);
        proof {
            assert((old(out)@ + dec_rep((n / 10) as nat)).push(digit_char((n % 10) as nat)) =~= old(
                out,
            )@ + dec_rep(n as nat));
        }
    }
}

/// Append the JSON escape of `s`.
fn append_escaped(out: &mut String, s: &str)
    ensures
        final(out)@ == old(out)@ + esc(s@),
{
    let n = s.unicode_len();
    let mut i: usize = 0;
    while i < n
        invariant
            i <= n,
            n == s@.len(),
            out@ == old(out)@ + esc(s@.subrange(0, i as int)),
        decreases n - i,
    {
        let c = s.get_char(i);
        if c == '"' {
            push_char(out, '\\');
            push_char(out, '"');
        } else if c == '\\' {
            push_char(out, '\\');
            push_char(out, '\\');
        } else {
            push_char(out, c);
        }
        proof {
            lemma_esc_push(s@.subrange(0, i as int), s@[i as int]);
            assert(s@.subrange(0, i + 1) =~= s@.subrange(0, i as int).push(s@[i as int]));
            assert(out@ =~= old(out)@ + esc(s@.subrange(0, i + 1)));
        }
        i = i + 1;
    }
    proof {
        assert(s@.subrange(0, n as int) =~= s@);
    }
}

/// A text that stands somewhere splits into its two parts.
pub proof fn lemma_match_at_concat(s: Seq<char>, i: int, x: Seq<char>, y: Seq<char>)
    requires
        match_at(s, i, x + y),
    ensures
        match_at(s, i, x),
        match_at(s, i + x.len(), y),
{
    assert(s.subrange(i, i + x.len()) =~= x) by {
        assert forall|k: int| 0 <= k < x.len() implies s.subrange(i, i + x.len())[k] == x[k] by {
            assert(s.subrange(i, i + (x + y).len())[k] == (x + y)[k]);
        }
    }
    assert(s.subrange(i + x.len(), i + x.len() + y.len()) =~= y) by {
        assert forall|k: int| 0 <= k < y.len() implies s.subrange(
            i + x.len(),
            i + x.len() + y.len(),
        )[k] == y[k] by {
            assert(s.subrange(i, i + (x + y).len())[x.len() + k] == (x + y)[x.len() + k]);
        }
    }
}

/// Two texts that stand side by side stand there together.
pub proof fn lemma_match_at_merge(s: Seq<char>, i: int, x: Seq<char>, y: Seq<char>)
    requires
        match_at(s, i, x),
        match_at(s, i + x.len(), y),
    ensures
        match_at(s, i, x + y),
{
    assert(s.subrange(i, i + (x + y).len()) =~= x + y) by {
        assert forall|k: int| 0 <= k < (x + y).len() implies s.subrange(i, i + (x + y).len())[k]
            == (x + y)[k] by {
            if k < x.len() {
                assert(s.subrange(i, i + x.len())[k] == x[k]);
            } else {
                assert(s.subrange(i + x.len(), i + x.len() + y.len())[k - x.len()] == y[k
                    - x.len()]);
            }
        }
    }
}

/// The first character of a text that stands at `i` stands at `i`.
pub proof fn lemma_match_first(s: Seq<char>, i: int, lit: Seq<char>)
    requires
        match_at(s, i, lit),
        lit.len() > 0,
    ensures
        s[i] == lit[0],
{
    assert(s.subrange(i, i + lit.len())[0] == lit[0]);
}

/// The parser recovers a name from its escape followed by the closing
/// quote.
pub proof fn lemma_parse_string_complete(s: Seq<char>, i: int, name: Seq<char>)
    requires
        match_at(s, i, esc(name) + seq!['"']),
    ensures
        parse_string_body(s, i) == Some((name, i + esc(name).len() + 1)),
    decreases name.len(),
{
    if name.len() == 0 {
        assert(esc(name) + seq!['"'] =~= seq!['"']);
        lemma_match_first(s, i, seq!['"']);
        assert(parse_string_body(s, i) == Some((Seq::<char>::empty(), i + 1)));
        assert(name =~= Seq::<char>::empty());
    } else {
        let c = name[0];
        let rest = name.drop_first();
        assert(name =~= seq![c] + rest);
        lemma_esc_concat(seq![c], rest);
        lemma_esc_single(c);
        assert(esc(name) == esc_char(c) + esc(rest));
        assert(esc(name) + seq!['"'] =~= esc_char(c) + (esc(rest) + seq!['"']));
        lemma_match_at_concat(s, i, esc_char(c), esc(rest) + seq!['"']);
        if c == '"' || c == '\\' {
            assert(esc_char(c).len() == 2);
            assert(s[i] == '\\') by {
                lemma_match_first(s, i, esc_char(c));
            }
            assert(s[i + 1] == c) by {
                assert(s.subrange(i, i + 2)[1] == esc_char(c)[1]);
            }
            lemma_parse_string_complete(s, i + 2, rest);
            assert(parse_string_body(s, i) == Some(
                (seq![c] + rest, i + 2 + esc(rest).len() + 1),
            ));
            assert(seq![c] + rest =~= name);
        } else {
            assert(esc_char(c).len() == 1);
            assert(s[i] == c) by {
                lemma_match_first(s, i, esc_char(c));
            }
            lemma_parse_string_complete(s, i + 1, rest);
            assert(parse_string_body(s, i) == Some(
                (seq![c] + rest, i + 1 + esc(rest).len() + 1),
            ));
            assert(seq![c] + rest =~= name);
        }
    }
}

/// The digit character of a value below ten is a digit of that value.
pub proof fn lemma_digit_char(d: nat)
    requires
        d < 10,
    ensures
        is_digit(digit_char(d)),
        digit_val(digit_char(d)) == d,
{
}

/// The decimal representation holds digits only, at least one of them.
pub proof fn lemma_dec_rep_digits(n: nat)
    ensures
        dec_rep(n).len() >= 1,
        forall|k: int| 0 <= k < dec_rep(n).len() ==> is_digit(#[trigger] dec_rep(n)[k]),
    decreases n,
{
    if n < 10 {
        lemma_digit_char(n);
    } else {
        lemma_dec_rep_digits(n / 10);
        lemma_digit_char(n % 10);
        assert forall|k: int| 0 <= k < dec_rep(n).len() implies is_digit(
            #[trigger] dec_rep(n)[k],
        ) by {
            if k < dec_rep(n / 10).len() {
                assert(dec_rep(n)[k] == dec_rep(n / 10)[k]);
            } else {
                assert(dec_rep(n)[k] == digit_char(n % 10));
            }
        }
    }
}

/// The value of a digit run read onto an accumulator.
pub open spec fn val_acc(ds: Seq<char>, acc: nat) -> nat
    decreases ds.len(),
{
    if ds.len() == 0 {
        acc
    } else {
        val_acc(ds.drop_first(), acc * 10 + digit_val(ds[0]))
    }
}

/// Reading digits never shrinks the accumulated value.
pub proof fn lemma_val_acc_monotone(ds: Seq<char>, acc: nat)
    ensures
        val_acc(ds, acc) >= acc,
    decreases ds.len(),
{
    if ds.len() > 0 {
        lemma_val_acc_monotone(ds.drop_first(), acc * 10 + digit_val(ds[0]));
    }
}

/// Reading two digit runs in turn reads their concatenation.
pub proof fn lemma_val_acc_concat(a: Seq<char>, b: Seq<char>, acc: nat)
    ensures
        val_acc(a + b, acc) == val_acc(b, val_acc(a, acc)),
    decreases a.len(),
{
    if a.len() == 0 {
        assert(a + b =~= b);
    } else {
        assert((a + b)[0] == a[0]);
        assert((a + b).drop_first() =~= a.drop_first() + b);
        lemma_val_acc_concat(a.drop_first(), b, acc * 10 + digit_val(a[0]));
    }
}

/// Reading the decimal representation of `n` from zero yields `n`.
pub proof fn lemma_dec_rep_val(n: nat)
    ensures
        val_acc(dec_rep(n), 0) == n,
    decreases n,
{
    if n < 10 {
        lemma_digit_char(n);
        assert(dec_rep(n) == seq![digit_char(n)]);
        assert(seq![digit_char(n)].drop_first() =~= Seq::<char>::empty());
        assert(seq![digit_char(n)][0] == digit_char(n));
        assert(val_acc(seq![digit_char(n)], 0) == val_acc(
            Seq::<char>::empty(),
            0 * 10 + digit_val(digit_char(n)),
        ));
    } else {
        assert(dec_rep(n) == dec_rep(n / 10) + seq![digit_char(n % 10)]);
        lemma_dec_rep_val(n / 10);
        lemma_val_acc_concat(dec_rep(n / 10), seq![digit_char(n % 10)], 0);
        lemma_digit_char(n % 10);
        let d = digit_char(n % 10);
        assert(seq![d].drop_first() =~= Seq::<char>::empty());
        assert(seq![d][0] == d);
        assert(val_acc(seq![d], n / 10) == val_acc(
            Seq::<char>::empty(),
            (n / 10) * 10 + digit_val(d),
        ));
        assert(val_acc(Seq::<char>::empty(), (n / 10) * 10 + digit_val(d)) == (n / 10) * 10 + (n
            % 10));
        vstd::arithmetic::div_mod::lemma_fundamental_div_mod(n as int, 10);
        assert((n / 10) * 10 + (n % 10) == n);
    }
}

/// The digit scanner stops exactly at the first character that is not a
/// digit and yields the accumulated value.
pub proof fn lemma_parse_digits_complete(s: Seq<char>, i: int, ds: Seq<char>, acc: u64)
    requires
        match_at(s, i, ds),
        forall|k: int| 0 <= k < ds.len() ==> is_digit(#[trigger] ds[k]),
        i + ds.len() < s.len(),
        !is_digit(s[i + ds.len()]),
        val_acc(ds, acc as nat) <= u64::MAX,
    ensures
        parse_digits(s, i, acc) == Some((val_acc(ds, acc as nat) as u64, i + ds.len())),
    decreases ds.len(),
{
    if ds.len() == 0 {
        assert(parse_digits(s, i, acc) == Some((acc, i)));
    } else {
        lemma_match_first(s, i, ds);
        assert(is_digit(s[i]));
        let a2 = acc * 10 + digit_val(ds[0]);
        assert(val_acc(ds, acc as nat) == val_acc(ds.drop_first(), a2 as nat));
        lemma_val_acc_monotone(ds.drop_first(), a2 as nat);
        assert(a2 <= u64::MAX);
        assert(match_at(s, i + 1, ds.drop_first())) by {
            assert(s.subrange(i + 1, i + ds.len()) =~= ds.drop_first()) by {
                assert forall|k: int| 0 <= k < ds.len() - 1 implies s.subrange(
                    i + 1,
                    i + ds.len(),
                )[k] == ds.drop_first()[k] by {
                    assert(s.subrange(i, i + ds.len())[k + 1] == ds[k + 1]);
                }
            }
        }
        assert(forall|k: int|
            0 <= k < ds.drop_first().len() ==> is_digit(#[trigger] ds.drop_first()[k]));
        lemma_parse_digits_complete(s, i + 1, ds.drop_first(), a2 as u64);
    }
}

/// The number scanner recovers a value from its decimal representation,
/// given that what follows is not a digit.
pub proof fn lemma_parse_number_complete(s: Seq<char>, i: int, n: u64)
    requires
        match_at(s, i, dec_rep(n as nat)),
        i + dec_rep(n as nat).len() < s.len(),
        !is_digit(s[i + dec_rep(n as nat).len()]),
    ensures
        parse_number(s, i) == Some((n, i + dec_rep(n as nat).len())),
{
    lemma_dec_rep_digits(n as nat);
    lemma_dec_rep_val(n as nat);
    lemma_match_first(s, i, dec_rep(n as nat));
    lemma_parse_digits_complete(s, i, dec_rep(n as nat), 0);
}

/// A serialized node begins with an opening brace.
pub proof fn lemma_json_first(m: NodeModel)
    ensures
        json_of(m).len() > 0,
        json_of(m)[0] == '{',
{
    reveal_strlit("{\"name\":\"");
    let u1 = lit_open_name();
    let u2 = u1 + esc(m.name);
    let u3 = u2 + seq!['"'];
    let u4 = u3 + lit_expanded();
    let u5 = u4 + bool_tok(m.expanded);
    let u6 = u5 + lit_size();
    let u7 = u6 + dec_rep(m.size as nat);
    let u8 = u7 + lit_type();
    let u9 = u8 + type_tok(m.node_type);
    let u10 = u9 + lit_children();
    let u11 = u10 + json_of_list(m.children);
    let u12 = u11 + seq![']'];
    let u13 = u12 + lit_count();
    let u14 = u13 + dec_rep(m.count as nat);
    assert(json_of(m) == u14 + seq!['}']);
    assert(u1.len() == 9);
    assert(json_of(m)[0] == u14[0]);
    assert(u14[0] == u13[0]);
    assert(u13[0] == u12[0]);
    assert(u12[0] == u11[0]);
    assert(u11[0] == u10[0]);
    assert(u10[0] == u9[0]);
    assert(u9[0] == u8[0]);
    assert(u8[0] == u7[0]);
    assert(u7[0] == u6[0]);
    assert(u6[0] == u5[0]);
    assert(u5[0] == u4[0]);
    assert(u4[0] == u3[0]);
    assert(u3[0] == u2[0]);
    assert(u2[0] == u1[0]);
    assert(u1[0] == '{');
}

/// The node parser recovers a node from its serialized text: completeness
/// of [`parse_node`] against [`json_of`].
#[verifier::rlimit(50)]
pub proof fn lemma_parse_node_complete(s: Seq<char>, i: int, m: NodeModel)
    requires
        match_at(s, i, json_of(m)),
    ensures
        parse_node(s, i) == Some((m, i + json_of(m).len())),
    decreases m,
{
    reveal_strlit("{\"name\":\"");
    reveal_strlit(",\"expanded\":");
    reveal_strlit("true");
    reveal_strlit("false");
    reveal_strlit(",\"size\":");
    reveal_strlit(",\"type\":\"");
    reveal_strlit("directory\"");
    reveal_strlit("file\"");
    reveal_strlit(",\"children\":[");
    reveal_strlit(",\"count\":");
    let u1 = lit_open_name();
    let u2 = u1 + esc(m.name);
    let u3 = u2 + seq!['"'];
    let u4 = u3 + lit_expanded();
    let u5 = u4 + bool_tok(m.expanded);
    let u6 = u5 + lit_size();
    let u7 = u6 + dec_rep(m.size as nat);
    let u8 = u7 + lit_type();
    let u9 = u8 + type_tok(m.node_type);
    let u10 = u9 + lit_children();
    let u11 = u10 + json_of_list(m.children);
    let u12 = u11 + seq![']'];
    let u13 = u12 + lit_count();
    let u14 = u13 + dec_rep(m.count as nat);
    assert(json_of(m) == u14 + seq!['}']);
    lemma_match_at_concat(s, i, u14, seq!['}']);
    lemma_match_at_concat(s, i, u13, dec_rep(m.count as nat));
    lemma_match_at_concat(s, i, u12, lit_count());
    lemma_match_at_concat(s, i, u11, seq![']']);
    lemma_match_at_concat(s, i, u10, json_of_list(m.children));
    lemma_match_at_concat(s, i, u9, lit_children());
    lemma_match_at_concat(s, i, u8, type_tok(m.node_type));
    lemma_match_at_concat(s, i, u7, lit_type());
    lemma_match_at_concat(s, i, u6, dec_rep(m.size as nat));
    lemma_match_at_concat(s, i, u5, lit_size());
    lemma_match_at_concat(s, i, u4, bool_tok(m.expanded));
    lemma_match_at_concat(s, i, u3, lit_expanded());
    lemma_match_at_concat(s, i, u2, seq!['"']);
    lemma_match_at_concat(s, i, u1, esc(m.name));
    let b2 = i + u1.len();
    let b3 = i + u2.len();
    let b4 = i + u3.len();
    let b5 = i + u4.len();
    let b6 = i + u5.len();
    let b7 = i + u6.len();
    let b8 = i + u7.len();
    let b9 = i + u8.len();
    let b10 = i + u9.len();
    let b11 = i + u10.len();
    let b12 = i + u11.len();
    let b13 = i + u12.len();
    let b14 = i + u13.len();
    let b15 = i + u14.len();
    // the opening literal
    assert(i < s.len());
    assert(parse_lit(s, i, lit_open_name()) == Some(b2));
    // the name and its closing quote
    lemma_match_at_merge(s, b2, esc(m.name), seq!['"']);
    lemma_parse_string_complete(s, b2, m.name);
    assert(parse_string_body(s, b2) == Some((m.name, b4)));
    // the expanded flag
    assert(parse_lit(s, b4, lit_expanded()) == Some(b5));
    if m.expanded {
        assert(bool_tok(m.expanded) == lit_true());
        assert(parse_bool(s, b5) == Some((true, b6)));
    } else {
        assert(bool_tok(m.expanded) == lit_false());
        if match_at(s, b5, lit_true()) {
            lemma_match_first(s, b5, lit_true());
            lemma_match_first(s, b5, lit_false());
            assert(false);
        }
        assert(parse_bool(s, b5) == Some((false, b5 + lit_false().len())));
    }
    assert(parse_bool(s, b5) == Some((m.expanded, b6)));
    // the size
    assert(parse_lit(s, b6, lit_size()) == Some(b7));
    lemma_match_first(s, b8, lit_type());
    assert(s[b8] == ',');
    assert(!is_digit(','));
    lemma_parse_number_complete(s, b7, m.size);
    assert(parse_number(s, b7) == Some((m.size, b8)));
    // the type tag
    assert(parse_lit(s, b8, lit_type()) == Some(b9));
    match m.node_type {
        NodeType::Directory => {
            assert(type_tok(m.node_type) == lit_directory());
            assert(parse_type(s, b9) == Some((NodeType::Directory, b10)));
        },
        NodeType::File => {
            assert(type_tok(m.node_type) == lit_file());
            if match_at(s, b9, lit_directory()) {
                lemma_match_first(s, b9, lit_directory());
                lemma_match_first(s, b9, lit_file());
                assert(false);
            }
            assert(parse_type(s, b9) == Some((NodeType::File, b10)));
        },
    }
    assert(parse_type(s, b9) == Some((m.node_type, b10)));
    // the children array
    assert(parse_lit(s, b10, lit_children()) == Some(b11));
    assert(u1.len() == 9);
    assert(b11 > i);
    assert(b11 <= s.len());
    assert(adv(s, i, b11) == b11);
    lemma_match_at_merge(s, b11, json_of_list(m.children), seq![']']);
    lemma_parse_children_complete(s, b11, m.children);
    assert(parse_children(s, b11) == Some((m.children, b13)));
    // the count
    assert(parse_lit(s, b13, lit_count()) == Some(b14));
    assert((m.count as u64) as nat == m.count as nat);
    assert(dec_rep((m.count as u64) as nat) == dec_rep(m.count as nat));
    lemma_match_first(s, b15, seq!['}']);
    assert(s[b15] == '}');
    assert(!is_digit('}'));
    lemma_parse_number_complete(s, b14, m.count as u64);
    assert(parse_number(s, b14) == Some((m.count as u64, b15)));
    assert(!(m.count as u64 > usize::MAX));
    // the closing brace
    assert(parse_lit(s, b15, seq!['}']) == Some(b15 + 1));
    assert((m.count as u64) as usize == m.count);
    assert(b15 + 1 == i + json_of(m).len());
    assert(m == NodeModel {
        name: m.name,
        expanded: m.expanded,
        size: m.size,
        node_type: m.node_type,
        children: m.children,
        count: (m.count as u64) as usize,
    });
    assert(parse_node(s, i) == Some((m, i + json_of(m).len())));
}

/// The children parser recovers a child sequence from its serialized text
/// followed by the closing bracket.
pub proof fn lemma_parse_children_complete(s: Seq<char>, i: int, ms: Seq<NodeModel>)
    requires
        match_at(s, i, json_of_list(ms) + seq![']']),
    ensures
        parse_children(s, i) == Some((ms, i + json_of_list(ms).len() + 1)),
    decreases ms,
{
    if ms.len() == 0 {
        assert(json_of_list(ms) + seq![']'] =~= seq![']']);
        lemma_match_first(s, i, seq![']']);
        assert(s[i] == ']');
        assert(ms =~= Seq::<NodeModel>::empty());
        assert(parse_children(s, i) == Some((Seq::<NodeModel>::empty(), i + 1)));
    } else {
        let jn = json_of(ms[0]);
        let jt = json_of_tail(ms.drop_first());
        assert(json_of_list(ms) == jn + jt);
        assert((json_of_list(ms) + seq![']']) =~= jn + (jt + seq![']']));
        assert(match_at(s, i, jn + (jt + seq![']'])));
        lemma_match_at_concat(s, i, jn, jt + seq![']']);
        lemma_json_first(ms[0]);
        lemma_match_first(s, i, jn);
        assert(s[i] == '{');
        lemma_parse_node_complete(s, i, ms[0]);
        let j = i + jn.len();
        assert(parse_node(s, i) == Some((ms[0], j)));
        assert(adv(s, i, j) == j);
        lemma_parse_rest_complete(s, j, ms.drop_first());
        assert(parse_rest(s, j) == Some((ms.drop_first(), j + jt.len() + 1)));
        assert(seq![ms[0]] + ms.drop_first() =~= ms);
        assert(parse_children(s, i) == Some((ms, i + json_of_list(ms).len() + 1)));
    }
}

/// The rest parser recovers the later children from their serialized text
/// followed by the closing bracket.
pub proof fn lemma_parse_rest_complete(s: Seq<char>, i: int, ms: Seq<NodeModel>)
    requires
        match_at(s, i, json_of_tail(ms) + seq![']']),
    ensures
        parse_rest(s, i) == Some((ms, i + json_of_tail(ms).len() + 1)),
    decreases ms,
{
    if ms.len() == 0 {
        assert(json_of_tail(ms) + seq![']'] =~= seq![']']);
        lemma_match_first(s, i, seq![']']);
        assert(s[i] == ']');
        assert(ms =~= Seq::<NodeModel>::empty());
        assert(parse_rest(s, i) == Some((Seq::<NodeModel>::empty(), i + 1)));
    } else {
        let jn = json_of(ms[0]);
        let jt = json_of_tail(ms.drop_first());
        assert(json_of_tail(ms) == seq![','] + jn + jt);
        let u2 = seq![','] + jn;
        assert((json_of_tail(ms) + seq![']']) =~= u2 + (jt + seq![']']));
        assert(match_at(s, i, u2 + (jt + seq![']'])));
        lemma_match_at_concat(s, i, u2, jt + seq![']']);
        lemma_match_at_concat(s, i, seq![','], jn);
        lemma_match_first(s, i, seq![',']);
        assert(s[i] == ',');
        assert(adv(s, i, i + 1) == i + 1);
        lemma_parse_node_complete(s, i + 1, ms[0]);
        let j = i + 1 + jn.len();
        assert(parse_node(s, i + 1) == Some((ms[0], j)));
        assert(adv(s, i, j) == j);
        lemma_parse_rest_complete(s, j, ms.drop_first());
        assert(parse_rest(s, j) == Some((ms.drop_first(), j + jt.len() + 1)));
        assert(seq![ms[0]] + ms.drop_first() =~= ms);
        assert(parse_rest(s, i) == Some((ms, i + json_of_tail(ms).len() + 1)));
    }
}

/// LAW (round trip): decoding the serialized text of any tree yields
/// exactly that tree, field for field.
pub proof fn lemma_round_trip(m: NodeModel)
    ensures
        spec_decode(json_of(m)) == Some(m),
{
    let s = json_of(m);
    assert(s.subrange(0, s.len() as int) =~= s);
    assert(match_at(s, 0, s));
    lemma_parse_node_complete(s, 0, m);
}

/// Serialization is injective: two trees with the same text are the same
/// tree.
pub proof fn lemma_json_injective(a: NodeModel, b: NodeModel)
    requires
        json_of(a) == json_of(b),
    ensures
        a == b,
{
    lemma_round_trip(a);
    lemma_round_trip(b);
}

/// The characters of `s`, one vector element per character.
fn str_to_chars(s: &str) -> (v: Vec<char>)
    ensures
        v@ == s@,
{
    let n = s.unicode_len();
    let mut v: Vec<char> = Vec::new();
    let mut k: usize = 0;
    while k < n
        invariant
            k <= n,
            n == s@.len(),
            v@ == s@.subrange(0, k as int),
        decreases n - k,
    {
        let c = s.get_char(k);
        v.push(c);
        proof {
            assert(v@ =~= s@.subrange(0, k + 1));
        }
        k = k + 1;
    }
    proof {
        assert(s@.subrange(0, n as int) =~= s@);
    }
    v
}

/// Consume `lit` at position `i`, as [`parse_lit`] does.
fn scan_lit(v: &Vec<char>, i: usize, lit: &str) -> (r: Option<usize>)
    ensures
        match r {
            Some(j) => parse_lit(v@, i as int, lit@) == Some(j as int) && j <= v.len(),
            None => parse_lit(v@, i as int, lit@) is None,
        },
{
    let n = lit.unicode_len();
    if i > v.len() || n > v.len() - i {
        return None;
    }
    let mut k: usize = 0;
    while k < n
        invariant
            k <= n,
            n == lit@.len(),
            i + n <= v.len(),
            forall|t: int| 0 <= t < k ==> v@[i + t] == lit@[t],
        decreases n - k,
    {
        if v[i + k] != lit.get_char(k) {
            proof {
                assert(parse_lit(v@, i as int, lit@) is None) by {
                    if match_at(v@, i as int, lit@) {
                        assert(v@.subrange(i as int, i + lit@.len())[k as int] == lit@[k as int]);
                    }
                }
            }
            return None;
        }
        k = k + 1;
    }
    proof {
        assert(v@.subrange(i as int, i + n as int) =~= lit@);
    }
    Some(i + n)
}

/// Consume a string body up to its closing quote, as
/// [`parse_string_body`] does.
fn scan_string(v: &Vec<char>, i: usize) -> (r: Option<(String, usize)>)
    ensures
        match r {
            Some(p) => parse_string_body(v@, i as int) == Some((p.0@, p.1 as int)) && p.1
                <= v.len(),
            None => parse_string_body(v@, i as int) is None,
        },
{
    if i >= v.len() {
        return None;
    }
    let mut out = String::new();
    let mut k: usize = i;
    while k < v.len()
        invariant
            i <= k,
            k <= v.len(),
            parse_string_body(v@, i as int) == (match parse_string_body(v@, k as int) {
                Some(p) => Some((out@ + p.0, p.1)),
                None => None::<(Seq<char>, int)>,
            }),
        decreases v@.len() - k,
    {
        let c = v[k];
        if c == '"' {
            proof {
                assert(out@ + Seq::<char>::empty() =~= out@);
            }
            return Some((out, k + 1));
        } else if c == '\\' {
            if k + 1 < v.len() && (v[k + 1] == '"' || v[k + 1] == '\\') {
                let e = v[k + 1];
                let ghost out0 = out@;
                push_char(&mut out, e);
                let ghost kold = k as int;
                k = k + 2;
                proof {
                    if parse_string_body(v@, k as int) is Some {
                        let p = parse_string_body(v@, k as int)->0;
                        assert(parse_string_body(v@, kold) == Some((seq![e] + p.0, p.1)));
                        assert(out0 + (seq![e] + p.0) =~= out@ + p.0);
                    }
                }
            } else {
                return None;
            }
        } else {
            let ghost out0 = out@;
            push_char(&mut out, c);
            let ghost kold = k as int;
            k = k + 1;
            proof {
                if parse_string_body(v@, k as int) is Some {
                    let p = parse_string_body(v@, k as int)->0;
                    assert(parse_string_body(v@, kold) == Some((seq![c] + p.0, p.1)));
                    assert(out0 + (seq![c] + p.0) =~= out@ + p.0);
                }
            }
        }
    }
    None
}

/// Consume a decimal number, as [`parse_number`] does.
fn scan_number(v: &Vec<char>, i: usize) -> (r: Option<(u64, usize)>)
    ensures
        match r {
            Some(p) => parse_number(v@, i as int) == Some((p.0, p.1 as int)) && p.1 <= v.len(),
            None => parse_number(v@, i as int) is None,
        },
{
    if i >= v.len() {
        return None;
    }
    let c0 = v[i] as u32;
    if c0 < 48 || c0 > 57 {
        return None;
    }
    let mut acc: u64 = 0;
    let mut k: usize = i;
    while k < v.len() && v[k] as u32 >= 48 && v[k] as u32 <= 57
        invariant
            i <= k,
            k <= v.len(),
            parse_number(v@, i as int) == parse_digits(v@, k as int, acc),
        decreases v@.len() - k,
    {
        let d = (v[k] as u32 - 48) as u64;
        match acc.checked_mul(10) {
            Some(m) => {
                match m.checked_add(d) {
                    Some(a2) => {
                        proof {
                            assert(parse_digits(v@, k as int, acc) == parse_digits(
                                v@,
                                k + 1,
                                a2,
                            ));
                        }
                        acc = a2;
                        k = k + 1;
                    },
                    None => {
                        return None;
                    },
                }
            },
            None => {
                proof {
                    assert(acc * 10 + digit_val(v@[k as int]) > u64::MAX);
                }
                return None;
            },
        }
    }
    Some((acc, k))
}

/// Consume the `expanded` value, as [`parse_bool`] does.
fn scan_bool(v: &Vec<char>, i: usize) -> (r: Option<(bool, usize)>)
    ensures
        match r {
            Some(p) => parse_bool(v@, i as int) == Some((p.0, p.1 as int)) && p.1 <= v.len(),
            None => parse_bool(v@, i as int) is None,
        },
{
    match scan_lit(v, i, "true") {
        Some(j) => Some((true, j)),
        None => match scan_lit(v, i, "false") {
            Some(j) => Some((false, j)),
            None => None,
        },
    }
}

/// Consume the type tag, as [`parse_type`] does.
fn scan_type(v: &Vec<char>, i: usize) -> (r: Option<(NodeType, usize)>)
    ensures
        match r {
            Some(p) => parse_type(v@, i as int) == Some((p.0, p.1 as int)) && p.1 <= v.len(),
            None => parse_type(v@, i as int) is None,
        },
{
    match scan_lit(v, i, "directory\"") {
        Some(j) => Some((NodeType::Directory, j)),
        None => match scan_lit(v, i, "file\"") {
            Some(j) => Some((NodeType::File, j)),
            None => None,
        },
    }
}

/// Consume one serialized node, as [`parse_node`] does.
fn scan_node(v: &Vec<char>, i: usize) -> (r: Option<(ContentTreeNode, usize)>)
    ensures
        match r {
            Some(p) => parse_node(v@, i as int) == Some((p.0.model(), p.1 as int)) && p.1
                <= v.len(),
            None => parse_node(v@, i as int) is None,
        },
    decreases v@.len() - i, 0int,
{
    if i >= v.len() {
        return None;
    }
    let i1 = match scan_lit(v, i, "{\"name\":\"") {
        Some(j) => j,
        None => {
            return None;
        },
    };
    let (name, i2) = match scan_string(v, i1) {
        Some(p) => p,
        None => {
            return None;
        },
    };
    let i3 = match scan_lit(v, i2, ",\"expanded\":") {
        Some(j) => j,
        None => {
            return None;
        },
    };
    let (expanded, i4) = match scan_bool(v, i3) {
        Some(p) => p,
        None => {
            return None;
        },
    };
    let i5 = match scan_lit(v, i4, ",\"size\":") {
        Some(j) => j,
        None => {
            return None;
        },
    };
    let (size, i6) = match scan_number(v, i5) {
        Some(p) => p,
        None => {
            return None;
        },
    };
    let i7 = match scan_lit(v, i6, ",\"type\":\"") {
        Some(j) => j,
        None => {
            return None;
        },
    };
    let (ty, i8) = match scan_type(v, i7) {
        Some(p) => p,
        None => {
            return None;
        },
    };
    let i9 = match scan_lit(v, i8, ",\"children\":[") {
        Some(j) => j,
        None => {
            return None;
        },
    };
    let ci = if i9 > i && i9 <= v.len() {
        i9
    } else {
        i + 1
    };
    proof {
        assert(ci as int == adv(v@, i as int, i9 as int));
    }
    let (children, i10) = match scan_children(v, ci) {
        Some(p) => p,
        None => {
            return None;
        },
    };
    let i11 = match scan_lit(v, i10, ",\"count\":") {
        Some(j) => j,
        None => {
            return None;
        },
    };
    let (cv, i12) = match scan_number(v, i11) {
        Some(p) => p,
        None => {
            return None;
        },
    };
    if cv > usize::MAX as u64 {
        return None;
    }
    proof {
        reveal_strlit("}");
        assert("}"@ =~= seq!['}']);
    }
    let i13 = match scan_lit(v, i12, "}") {
        Some(j) => j,
        None => {
            return None;
        },
    };
    let node = ContentTreeNode {
        name,
        expanded,
        size,
        node_type: ty,
        children,
        count: cv as usize,
    };
    proof {
        assert(parse_node(v@, i as int) == Some((node.model(), i13 as int)));
    }
    Some((node, i13))
}

/// Consume the contents of a children array and its closing bracket, as
/// [`parse_children`] does.
fn scan_children(v: &Vec<char>, i: usize) -> (r: Option<(Vec<ContentTreeNode>, usize)>)
    ensures
        match r {
            Some(p) => parse_children(v@, i as int) == Some((models(p.0@), p.1 as int)) && p.1
                <= v.len(),
            None => parse_children(v@, i as int) is None,
        },
    decreases v@.len() - i, 1int,
{
    if i >= v.len() {
        return None;
    }
    if v[i] == ']' {
        let out: Vec<ContentTreeNode> = Vec::new();
        proof {
            assert(models(out@) =~= Seq::<NodeModel>::empty());
        }
        return Some((out, i + 1));
    }
    let (first, j) = match scan_node(v, i) {
        Some(p) => p,
        None => {
            return None;
        },
    };
    let ci = if j > i && j <= v.len() {
        j
    } else {
        i + 1
    };
    proof {
        assert(ci as int == adv(v@, i as int, j as int));
    }
    let (rest, j2) = match scan_rest(v, ci) {
        Some(p) => p,
        None => {
            return None;
        },
    };
    let mut out = rest;
    let ghost rest_view = out@;
    out.insert(0, first);
    proof {
        assert(out@ =~= seq![first] + rest_view);
        assert((seq![first] + rest_view)[0] == first);
        assert((seq![first] + rest_view).drop_first() =~= rest_view);
        assert(models(out@) =~= seq![first.model()] + models(rest_view));
    }
    Some((out, j2))
}

/// Consume the remainder of a children array after one element, as
/// [`parse_rest`] does.
fn scan_rest(v: &Vec<char>, i: usize) -> (r: Option<(Vec<ContentTreeNode>, usize)>)
    ensures
        match r {
            Some(p) => parse_rest(v@, i as int) == Some((models(p.0@), p.1 as int)) && p.1
                <= v.len(),
            None => parse_rest(v@, i as int) is None,
        },
    decreases v@.len() - i, 1int,
{
    if i >= v.len() {
        return None;
    }
    if v[i] == ']' {
        let out: Vec<ContentTreeNode> = Vec::new();
        proof {
            assert(models(out@) =~= Seq::<NodeModel>::empty());
        }
        return Some((out, i + 1));
    }
    if v[i] != ',' {
        return None;
    }
    proof {
        assert((i + 1) as int == adv(v@, i as int, i + 1));
    }
    let (first, j) = match scan_node(v, i + 1) {
        Some(p) => p,
        None => {
            return None;
        },
    };
    let ci = if j > i && j <= v.len() {
        j
    } else {
        i + 1
    };
    proof {
        assert(ci as int == adv(v@, i as int, j as int));
    }
    let (rest, j2) = match scan_rest(v, ci) {
        Some(p) => p,
        None => {
            return None;
        },
    };
    let mut out = rest;
    let ghost rest_view = out@;
    out.insert(0, first);
    proof {
        assert(out@ =~= seq![first] + rest_view);
        assert((seq![first] + rest_view)[0] == first);
        assert((seq![first] + rest_view).drop_first() =~= rest_view);
        assert(models(out@) =~= seq![first.model()] + models(rest_view));
    }
    Some((out, j2))
}

/// Decode a tree from its JSON text. Returns the tree whose serialized
/// form is exactly the whole input, and `None` on any other input;
/// [`spec_decode`] is the exact result.
pub fn from_json(s: &str) -> (r: Option<ContentTreeNode>)
    ensures
        match r {
            Some(t) => spec_decode(s@) == Some(t.model()),
            None => spec_decode(s@) is None,
        },
{
    let v = str_to_chars(s);
    match scan_node(&v, 0) {
        Some(p) => {
            let (t, j) = p;
            if j == v.len() {
                Some(t)
            } else {
                None
            }
        },
        None => None,
    }
}

/// Serialize a tree to its JSON text; [`json_of`] of the node's model is
/// the exact result.
pub fn to_json(t: &ContentTreeNode) -> (r: String)
    ensures
        r@ == json_of(t.model()),
    decreases *t,
{
    let ghost m = t.model();
    let mut out = String::new();
    out.append("{\"name\":\"");
    append_escaped(&mut out, t.name.as_str());
    push_char(&mut out, '"');
    out.append(",\"expanded\":");
    if t.expanded {
        out.append("true");
    } else {
        out.append("false");
    }
    out.append(",\"size\":");
    append_u64(&mut out, t.size);
    out.append(",\"type\":\"");
    match t.node_type {
        NodeType::Directory => out.append("directory\""),
        NodeType::File => out.append("file\""),
    }
    out.append(",\"children\":[");
    let ghost head = lit_open_name() + esc(m.name) + seq!['"'] + lit_expanded() + bool_tok(
        m.expanded,
    ) + lit_size() + dec_rep(m.size as nat) + lit_type() + type_tok(m.node_type) + lit_children();
    proof {
        assert(out@ =~= head);
        crate::tree::lemma_models_index(t.children@);
    }
    let n = t.children.len();
    let mut i: usize = 0;
    while i < n
        invariant
            i <= n,
            n == t.children@.len(),
            m == t.model(),
            m.children == models(t.children@),
            m.children.len() == n,
            forall|k: int| 0 <= k < n ==> m.children[k] == t.children@[k].model(),
            head == lit_open_name() + esc(m.name) + seq!['"'] + lit_expanded() + bool_tok(
                m.expanded,
            ) + lit_size() + dec_rep(m.size as nat) + lit_type() + type_tok(m.node_type)
                + lit_children(),
            out@ == head + json_of_list(m.children.subrange(0, i as int)),
        decreases n - i,
    {
        if i > 0 {
            push_char(&mut out, ',');
        }
        let cj = to_json(&t.children[i]);
        out.append(cj.as_str());
        proof {
            lemma_json_list_push(m.children.subrange(0, i as int), m.children[i as int]);
            assert(m.children.subrange(0, i + 1) =~= m.children.subrange(0, i as int).push(
                m.children[i as int],
            ));
            assert(out@ =~= head + json_of_list(m.children.subrange(0, i + 1)));
        }
        i = i + 1;
    }
    proof {
        assert(m.children.subrange(0, n as int) =~= m.children);
    }
    push_char(&mut out, ']');
    out.append(",\"count\":");
    append_u64(&mut out, t.count as u64);
    push_char(&mut out, '}');
    proof {
        assert(t.count as u64 as nat == m.count as nat);
        assert(out@ =~= json_of(m));
    }
    out
}

} // verus!
