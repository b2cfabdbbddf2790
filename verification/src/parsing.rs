//! Bracket notation: tokenizing `{label{child}...}` strings, interning
//! their labels and building trees from the tokens.

use memchr::memchr2_iter;
use vstd::prelude::*;
use vstd::string::StringSliceAdditionalSpecFns;

use crate::label_dict::LabelDict;
use crate::tree::{forest_view, tree_view, LabelId, ParsedTree, SpecTree, TreeNode};

verus! {

pub const TOKEN_START: u8 = 123u8;

pub const TOKEN_END: u8 = 125u8;

pub const ESCAPE_CHAR: u8 = 92u8;

/// Why a tree string could not be parsed.
#[derive(Debug, Clone, PartialEq, Eq)]
pub enum TreeParseError {
    /// The tree string holds a non-ASCII character.
    IsNotAscii,
    /// The brackets do not form a tree; the text says where.
    IncorrectFormat(String),
    /// A label is missing from the dictionary.
    TokenizerError,
}

fn format_error(msg: &str) -> (r: TreeParseError)
    ensures
        r matches TreeParseError::IncorrectFormat(m) && m@ == msg@,
{
    TreeParseError::IncorrectFormat(msg.to_owned())
}

/// The message for an opening brace at `col` that no later brace closes:
/// the text followed by the decimal digits of `col`.
fn no_ending_token_message(col: usize) -> (r: String)
    ensures
        r@ == "Label has no ending token near col "@ + decimal_digits(col as nat).map_values(
            |b: u8| b as char,
        ),
{
    let head = "Label has no ending token near col ";
    proof {
        reveal_strlit("Label has no ending token near col ");
        assert(vstd::string::is_ascii(head));
        vstd::string::is_ascii_spec_bytes(head);
    }
    let head_bytes = head.as_bytes();
    let mut bytes: Vec<u8> = Vec::new();
    let mut i: usize = 0;
    while i < head_bytes.len()
        invariant
            i <= head_bytes@.len(),
            head_bytes@ == head.spec_bytes(),
            bytes@ == head_bytes@.subrange(0, i as int),
        decreases head_bytes@.len() - i,
    {
        bytes.push(head_bytes[i]);
        i += 1;
    }
    let ghost prefix = bytes@;
    push_digits(col as u64, &mut bytes);
    proof {
        lemma_decimal_digits_ascii(col as nat);
        assert(prefix =~= head.spec_bytes());
        assert forall|j: int| 0 <= j < bytes@.len() implies #[trigger] bytes@[j] < 128 by {
            if j >= prefix.len() {
                assert(bytes@[j] == decimal_digits(col as nat)[j - prefix.len()]);
            }
        }
        assert(bytes@.map_values(|b: u8| b as char) =~= head@ + decimal_digits(col as nat).map_values(
            |b: u8| b as char,
        ));
    }
    ascii_string(bytes)
}

/// The byte is an opening or a closing brace.
pub open spec fn is_brace(b: u8) -> bool {
    b == TOKEN_START || b == TOKEN_END
}

/// Offsets below `n` that hold a brace, in increasing order.
pub open spec fn brace_offsets(bytes: Seq<u8>, n: int) -> Seq<usize>
    decreases n,
{
    if n <= 0 {
        Seq::empty()
    } else if is_brace(bytes[n - 1]) {
        brace_offsets(bytes, n - 1).push((n - 1) as usize)
    } else {
        brace_offsets(bytes, n - 1)
    }
}

/// The byte before `offset` is the escape character.
pub open spec fn escaped_at(bytes: Seq<u8>, offset: int) -> bool {
    offset > 0 && bytes[offset - 1] == ESCAPE_CHAR
}

/// The offsets of `ps` that are not escaped, in order.
pub open spec fn unescaped(bytes: Seq<u8>, ps: Seq<usize>) -> Seq<usize>
    decreases ps.len(),
{
    if ps.len() == 0 {
        Seq::empty()
    } else if escaped_at(bytes, ps.last() as int) {
        unescaped(bytes, ps.drop_last())
    } else {
        unescaped(bytes, ps.drop_last()).push(ps.last())
    }
}

/// Offsets of the unescaped braces: the token boundaries.
pub open spec fn token_offsets(bytes: Seq<u8>) -> Seq<usize> {
    unescaped(bytes, brace_offsets(bytes, bytes.len() as int))
}

/// Opening minus closing braces among the first `n` boundaries.
pub open spec fn open_count(bytes: Seq<u8>, ps: Seq<usize>, n: int) -> int
    decreases n,
{
    if n <= 0 {
        0
    } else if bytes[ps[n - 1] as int] == TOKEN_START {
        open_count(bytes, ps, n - 1) + 1
    } else {
        open_count(bytes, ps, n - 1) - 1
    }
}

/// The string tokenizes: at least two boundaries, never more closing than
/// opening braces so far, and the last boundary closes.
pub open spec fn tokenize_ok(bytes: Seq<u8>) -> bool {
    let ps = token_offsets(bytes);
    &&& ps.len() >= 2
    &&& forall|n: int| 0 <= n <= ps.len() ==> open_count(bytes, ps, n) >= 0
    &&& bytes[ps.last() as int] == TOKEN_END
}

/// The tokens that boundary `j` contributes: an opening brace and the label
/// text up to the next boundary, or a closing brace.
pub open spec fn boundary_tokens(bytes: Seq<u8>, ps: Seq<usize>, j: int) -> Seq<Seq<u8>> {
    if bytes[ps[j] as int] == TOKEN_START {
        seq![seq![TOKEN_START], bytes.subrange(ps[j] + 1, ps[j + 1] as int)]
    } else {
        seq![seq![TOKEN_END]]
    }
}

/// The tokens of the first `n` boundaries.
pub open spec fn tokens_upto(bytes: Seq<u8>, ps: Seq<usize>, n: int) -> Seq<Seq<u8>>
    decreases n,
{
    if n <= 0 {
        Seq::empty()
    } else {
        tokens_upto(bytes, ps, n - 1) + boundary_tokens(bytes, ps, n - 1)
    }
}

/// The tokens of a tree string.
pub open spec fn tokens_of(bytes: Seq<u8>) -> Seq<Seq<u8>> {
    let ps = token_offsets(bytes);
    tokens_upto(bytes, ps, ps.len() as int)
}

/// The byte strings of a token vector.
pub open spec fn token_views(t: Seq<Vec<u8>>) -> Seq<Seq<u8>> {
    t.map_values(|v: Vec<u8>| v@)
}

/// `memchr2_iter` (memchr crate): the offsets of all occurrences of `{` or
/// `}` in `bytes`, in increasing order.
#[verifier::external_body]
fn find_braces(bytes: &[u8]) -> (r: Vec<usize>)
    ensures
        r@ == brace_offsets(bytes@, bytes@.len() as int),
{
    memchr2_iter(TOKEN_START, TOKEN_END, bytes).collect()
}

/// Adds `addorsub` to the brace balance; fails once it turns negative.
pub fn braces_parity_check(parity: &mut i32, addorsub: i32) -> (r: Result<(), TreeParseError>)
    requires
        i32::MIN <= *old(parity) + addorsub <= i32::MAX,
    ensures
        *final(parity) == *old(parity) + addorsub,
        r is Ok <==> *final(parity) >= 0,
        r matches Err(e) ==> e is IncorrectFormat,
{
    *parity = *parity + addorsub;
    if *parity < 0 {
        return Err(format_error("Parity of brces does not match"));
    }
    Ok(())
}

/// The byte before `offset` is the escape character.
pub fn is_escaped(byte_string: &[u8], offset: usize) -> (r: bool)
    requires
        offset <= byte_string@.len(),
    ensures
        r == escaped_at(byte_string@, offset as int),
{
    offset > 0 && byte_string[offset - 1] == ESCAPE_CHAR
}

/// Offsets of the unescaped braces of `bytes`.
fn token_positions(bytes: &[u8]) -> (r: Vec<usize>)
    ensures
        r@ == token_offsets(bytes@),
        r@.len() <= bytes@.len(),
        forall|i: int| 0 <= i < r@.len() ==> #[trigger] r@[i] < bytes@.len() && is_brace(bytes@[r@[i] as int]),
        forall|i: int, j: int| 0 <= i < j < r@.len() ==> #[trigger] r@[i] < #[trigger] r@[j],
{
    let all = find_braces(bytes);
    let ghost len = bytes.len();
    proof {
        lemma_brace_offsets(bytes@, bytes@.len() as int);
    }
    let mut out: Vec<usize> = Vec::new();
    let mut i: usize = 0;
    while i < all.len()
        invariant
            i <= all@.len(),
            all@ == brace_offsets(bytes@, bytes@.len() as int),
            forall|k: int| 0 <= k < all@.len() ==> #[trigger] all@[k] < bytes@.len() && is_brace(bytes@[all@[k] as int]),
            forall|a: int, b: int| 0 <= a < b < all@.len() ==> #[trigger] all@[a] < #[trigger] all@[b],
            out@ == unescaped(bytes@, all@.take(i as int)),
            forall|k: int| 0 <= k < out@.len() ==> exists|m: int| 0 <= m < i && #[trigger] out@[k] == all@[m],
            forall|a: int, b: int| 0 <= a < b < out@.len() ==> #[trigger] out@[a] < #[trigger] out@[b],
            out@.len() > 0 ==> exists|m: int| 0 <= m < i && out@.last() == all@[m],
        decreases all@.len() - i,
    {
        let p = all[i];
        let ghost before = out@;
        proof {
            assert(all@.take(i + 1).drop_last() =~= all@.take(i as int));
        }
        if !is_escaped(bytes, p) {
            out.push(p);
            proof {
                assert forall|k: int| 0 <= k < out@.len() implies exists|m: int| 0 <= m < i + 1 && #[trigger] out@[k] == all@[m] by {
                    if k < before.len() {
                        let m = choose|m: int| 0 <= m < i && before[k] == all@[m];
                        assert(out@[k] == all@[m]);
                    } else {
                        assert(out@[k] == all@[i as int]);
                    }
                }
                assert forall|a: int, b: int| 0 <= a < b < out@.len() implies #[trigger] out@[a] < #[trigger] out@[b] by {
                    if b == before.len() {
                        let m = choose|m: int| 0 <= m < i && before[a] == all@[m];
                        assert(all@[m] < all@[i as int]);
                    }
                }
            }
        }
        i = i + 1;
    }
    proof {
        assert(all@.take(all@.len() as int) =~= all@);
        lemma_unescaped_len(bytes@, all@);
        assert forall|k: int| 0 <= k < out@.len() implies #[trigger] out@[k] < bytes@.len() && is_brace(bytes@[out@[k] as int]) by {
            let m = choose|m: int| 0 <= m < all@.len() && out@[k] == all@[m];
        }
    }
    out
}

proof fn lemma_brace_offsets(bytes: Seq<u8>, n: int)
    requires
        0 <= n <= bytes.len(),
        bytes.len() <= usize::MAX,
    ensures
        brace_offsets(bytes, n).len() <= n,
        forall|k: int| 0 <= k < brace_offsets(bytes, n).len() ==> #[trigger] brace_offsets(bytes, n)[k] < n
            && is_brace(bytes[brace_offsets(bytes, n)[k] as int]),
        forall|a: int, b: int|
            0 <= a < b < brace_offsets(bytes, n).len() ==> #[trigger] brace_offsets(bytes, n)[a]
                < #[trigger] brace_offsets(bytes, n)[b],
    decreases n,
{
    if n > 0 {
        lemma_brace_offsets(bytes, n - 1);
        let prev = brace_offsets(bytes, n - 1);
        let cur = brace_offsets(bytes, n);
        assert forall|k: int| 0 <= k < prev.len() implies cur[k] == prev[k] by {}
        if cur.len() > prev.len() {
            assert(cur[prev.len() as int] == n - 1);
        }
    }
}

proof fn lemma_unescaped_len(bytes: Seq<u8>, ps: Seq<usize>)
    ensures
        unescaped(bytes, ps).len() <= ps.len(),
    decreases ps.len(),
{
    if ps.len() > 0 {
        lemma_unescaped_len(bytes, ps.drop_last());
    }
}

/// A vector holding the one byte `b`.
fn single_byte(b: u8) -> (r: Vec<u8>)
    ensures
        r@ == seq![b],
{
    let mut v: Vec<u8> = Vec::new();
    v.push(b);
    v
}

/// Splits a tree string in bracket notation into tokens: every unescaped
/// opening brace gives `{` and the label text up to the next unescaped
/// brace, every unescaped closing brace gives `}`.
pub fn parse_tree_tokens(tree_str: &str) -> (r: Result<Vec<Vec<u8>>, TreeParseError>)
    requires
        vstd::utf8::encode_utf8(tree_str@).len() < i32::MAX,
    ensures
        r is Ok <==> tokenize_ok(vstd::utf8::encode_utf8(tree_str@)),
        r matches Ok(t) ==> token_views(t@) == tokens_of(vstd::utf8::encode_utf8(tree_str@)),
        r matches Err(e) ==> e is IncorrectFormat,
{
    let tree_bytes = tree_str.as_bytes();
    let ghost bytes = tree_bytes@;
    assert(bytes == vstd::utf8::encode_utf8(tree_str@));
    let positions = token_positions(tree_bytes);
    let ghost ps = positions@;
    if positions.len() < 2 {
        return Err(format_error("Minimal of 2 brackets not found!"));
    }
    let mut str_tokens: Vec<Vec<u8>> = Vec::new();
    let mut parity_check: i32 = 0;
    let mut i: usize = 0;
    while i < positions.len()
        invariant
            bytes == tree_bytes@,
            bytes == vstd::utf8::encode_utf8(tree_str@),
            bytes.len() < i32::MAX,
            ps == positions@,
            ps == token_offsets(bytes),
            ps.len() >= 2,
            ps.len() <= bytes.len(),
            i <= ps.len(),
            forall|k: int| 0 <= k < ps.len() ==> #[trigger] ps[k] < bytes.len() && is_brace(bytes[ps[k] as int]),
            forall|a: int, b: int| 0 <= a < b < ps.len() ==> #[trigger] ps[a] < #[trigger] ps[b],
            parity_check == open_count(bytes, ps, i as int),
            forall|n: int| 0 <= n <= i ==> open_count(bytes, ps, n) >= 0,
            0 <= parity_check <= i,
            token_views(str_tokens@) == tokens_upto(bytes, ps, i as int),
            i == ps.len() ==> bytes[ps.last() as int] == TOKEN_END,
        decreases ps.len() - i,
    {
        let token_pos = positions[i];
        let ghost before = str_tokens@;
        if tree_bytes[token_pos] == TOKEN_START {
            let _ = braces_parity_check(&mut parity_check, 1);
            str_tokens.push(single_byte(TOKEN_START));
            if i + 1 >= positions.len() {
                proof {
                    assert(bytes[ps.last() as int] == TOKEN_START);
                }
                return Err(TreeParseError::IncorrectFormat(no_ending_token_message(token_pos)));
            }
            let token_end = positions[i + 1];
            let label = vstd::slice::slice_to_vec(&tree_bytes[token_pos + 1..token_end]);
            str_tokens.push(label);
            proof {
                assert(token_views(str_tokens@) =~= token_views(before) + boundary_tokens(bytes, ps, i as int));
            }
        } else {
            match braces_parity_check(&mut parity_check, -1) {
                Err(e) => {
                    proof {
                        assert(open_count(bytes, ps, i + 1) < 0);
                    }
                    return Err(e);
                },
                Ok(()) => {},
            }
            str_tokens.push(single_byte(TOKEN_END));
            proof {
                assert(token_views(str_tokens@) =~= token_views(before) + boundary_tokens(bytes, ps, i as int));
            }
        }
        i = i + 1;
    }
    Ok(str_tokens)
}


/// A token that is neither an opening nor a closing brace: a label.
pub open spec fn is_label_token(t: Seq<u8>) -> bool {
    t != seq![TOKEN_START] && t != seq![TOKEN_END]
}

/// The label tokens of a token sequence, in order.
pub open spec fn token_labels(tokens: Seq<Seq<u8>>) -> Seq<Seq<u8>>
    decreases tokens.len(),
{
    if tokens.len() == 0 {
        Seq::empty()
    } else if is_label_token(tokens.last()) {
        token_labels(tokens.drop_last()).push(tokens.last())
    } else {
        token_labels(tokens.drop_last())
    }
}

/// The label tokens of several token sequences, one after the other.
pub open spec fn collection_labels(c: Seq<Seq<Seq<u8>>>) -> Seq<Seq<u8>>
    decreases c.len(),
{
    if c.len() == 0 {
        Seq::empty()
    } else {
        collection_labels(c.drop_last()) + token_labels(c.last())
    }
}

/// The byte strings of several token vectors.
pub open spec fn collection_views(c: Seq<Vec<Vec<u8>>>) -> Seq<Seq<Seq<u8>>> {
    c.map_values(|t: Vec<Vec<u8>>| token_views(t@))
}

/// The dictionary and the last identifier handed out after interning
/// `labels` in order into `m`, the last identifier handed out so far being
/// `last_id`: a known label has its count raised by one, a new label gets
/// the next identifier and the count 1.
pub open spec fn intern_labels(
    m: Map<Seq<u8>, (LabelId, usize)>,
    last_id: int,
    labels: Seq<Seq<u8>>,
) -> (Map<Seq<u8>, (LabelId, usize)>, int)
    decreases labels.len(),
{
    if labels.len() == 0 {
        (m, last_id)
    } else {
        let (m1, id1) = intern_labels(m, last_id, labels.drop_last());
        let l = labels.last();
        if m1.contains_key(l) {
            (m1.insert(l, (m1[l].0, (m1[l].1 + 1) as usize)), id1)
        } else {
            (m1.insert(l, ((id1 + 1) as LabelId, 1usize)), id1 + 1)
        }
    }
}

proof fn lemma_intern_push(
    m: Map<Seq<u8>, (LabelId, usize)>,
    last_id: int,
    labels: Seq<Seq<u8>>,
    l: Seq<u8>,
)
    ensures
        intern_labels(m, last_id, labels.push(l)) == ({
            let (m1, id1) = intern_labels(m, last_id, labels);
            if m1.contains_key(l) {
                (m1.insert(l, (m1[l].0, (m1[l].1 + 1) as usize)), id1)
            } else {
                (m1.insert(l, ((id1 + 1) as LabelId, 1usize)), id1 + 1)
            }
        }),
{
    assert(labels.push(l).drop_last() =~= labels);
}

/// Interns the labels of every token sequence of `tokens_collection`, in
/// order, into `ld`; new labels get consecutive identifiers after the
/// number of labels `ld` held.
pub fn update_label_dict(tokens_collection: &[Vec<Vec<u8>>], ld: &mut LabelDict)
    requires
        old(ld).wf(),
        old(ld)@.len() + collection_labels(collection_views(tokens_collection@)).len() <= i32::MAX,
        forall|k: Seq<u8>|
            #[trigger] old(ld)@.contains_key(k) ==> old(ld)@[k].1 + collection_labels(
                collection_views(tokens_collection@),
            ).len() <= usize::MAX,
    ensures
        final(ld).wf(),
        final(ld)@ == intern_labels(
            old(ld)@,
            old(ld)@.len() as int,
            collection_labels(collection_views(tokens_collection@)),
        ).0,
{
    let ghost c = collection_views(tokens_collection@);
    let ghost all = collection_labels(c);
    let ghost m0 = ld@;
    let mut max_node_id: i32 = ld.len() as i32;
    let ghost id0 = max_node_id as int;
    let mut t: usize = 0;
    while t < tokens_collection.len()
        invariant
            ld.wf(),
            c == collection_views(tokens_collection@),
            all == collection_labels(c),
            id0 == m0.len(),
            t <= tokens_collection@.len(),
            (ld@, max_node_id as int) == intern_labels(m0, id0, collection_labels(c.take(t as int))),
            id0 + all.len() <= i32::MAX,
            collection_labels(c.take(t as int)).len() <= all.len(),
            max_node_id <= id0 + collection_labels(c.take(t as int)).len(),
            forall|k: Seq<u8>|
                #[trigger] ld@.contains_key(k) ==> ld@[k].1 + all.len() - collection_labels(c.take(t as int)).len() <= usize::MAX,
        decreases tokens_collection@.len() - t,
    {
        let tokens = &tokens_collection[t];
        let ghost prefix = collection_labels(c.take(t as int));
        proof {
            assert(c.take(t + 1).drop_last() =~= c.take(t as int));
            assert(c[t as int] == token_views(tokens@));
            lemma_collection_prefix_len(c, t as int);
        }
        let mut j: usize = 0;
        while j < tokens.len()
            invariant
                ld.wf(),
                j <= tokens@.len(),
                c[t as int] == token_views(tokens@),
                t < c.len(),
                prefix + token_labels(c[t as int]) == collection_labels(c.take(t + 1)),
                (ld@, max_node_id as int) == intern_labels(m0, id0, prefix + token_labels(token_views(tokens@).take(j as int))),
                id0 + all.len() <= i32::MAX,
                collection_labels(c.take(t + 1)).len() <= all.len(),
                max_node_id <= id0 + prefix.len() + token_labels(token_views(tokens@).take(j as int)).len(),
                forall|k: Seq<u8>|
                    #[trigger] ld@.contains_key(k) ==> ld@[k].1 + all.len() - prefix.len() - token_labels(token_views(tokens@).take(j as int)).len() <= usize::MAX,
                prefix.len() + token_labels(token_views(tokens@).take(j as int)).len() <= prefix.len() + token_labels(c[t as int]).len(),
            decreases tokens@.len() - j,
        {
            let tok = &tokens[j];
            let ghost tv = token_views(tokens@);
            let ghost done = prefix + token_labels(tv.take(j as int));
            proof {
                assert(tv.take(j + 1).drop_last() =~= tv.take(j as int));
                assert(tv.take(j + 1).last() == tok@);
                lemma_token_labels_prefix_len(tv, j + 1);
            }
            let is_open = tok.len() == 1 && tok[0] == TOKEN_START;
            let is_close = tok.len() == 1 && tok[0] == TOKEN_END;
            proof {
                if tok@.len() == 1 {
                    assert(tok@ == seq![tok@[0]]);
                }
            }
            if !is_open && !is_close {
                proof {
                    assert(is_label_token(tok@));
                    assert(done.push(tok@) =~= prefix + token_labels(tv.take(j + 1)));
                    lemma_intern_push(m0, id0, done, tok@);
                }
                match ld.get(tok.as_slice()) {
                    Some((id, count)) => {
                        ld.insert(tok.as_slice(), id, count + 1);
                    },
                    None => {
                        max_node_id = max_node_id + 1;
                        ld.insert(tok.as_slice(), max_node_id, 1);
                    },
                }
            } else {
                proof {
                    assert(!is_label_token(tok@));
                    assert(token_labels(tv.take(j + 1)) == token_labels(tv.take(j as int)));
                }
            }
            j = j + 1;
        }
        proof {
            assert(token_views(tokens@).take(tokens@.len() as int) =~= token_views(tokens@));
        }
        t = t + 1;
    }
    proof {
        assert(c.take(c.len() as int) =~= c);
    }
}

proof fn lemma_token_labels_prefix_len(tv: Seq<Seq<u8>>, j: int)
    requires
        0 <= j <= tv.len(),
    ensures
        token_labels(tv.take(j)).len() <= token_labels(tv).len(),
    decreases tv.len() - j,
{
    if j < tv.len() {
        lemma_token_labels_prefix_len(tv, j + 1);
        assert(tv.take(j + 1).drop_last() =~= tv.take(j));
    } else {
        assert(tv.take(j) =~= tv);
    }
}

proof fn lemma_collection_prefix_len(c: Seq<Seq<Seq<u8>>>, t: int)
    requires
        0 <= t < c.len(),
    ensures
        collection_labels(c.take(t + 1)).len() <= collection_labels(c).len(),
    decreases c.len() - t,
{
    if t + 1 < c.len() {
        lemma_collection_prefix_len(c, t + 1);
        assert(c.take(t + 2).drop_last() =~= c.take(t + 1));
    } else {
        assert(c.take(t + 1) =~= c);
    }
}


/// State of the tree builder: the open nodes from the root down, the
/// finished root once the root has been closed, and whether a node was
/// ever opened.
pub ghost struct ParseState {
    pub stack: Seq<SpecTree>,
    pub done: Option<SpecTree>,
    pub started: bool,
}

/// How building a tree from tokens can fail.
pub ghost enum ParseFault {
    /// Brackets that do not pair up, or a second root.
    Format,
    /// A label missing from the dictionary.
    UnknownLabel,
}

/// `child` appended as the last child of the innermost open node.
pub open spec fn attach(stack: Seq<SpecTree>, child: SpecTree) -> Seq<SpecTree> {
    let p = stack.last();
    stack.drop_last().push(SpecTree { label: p.label, children: p.children.push(child) })
}

/// Closes the innermost open node.
pub open spec fn close_top(st: ParseState) -> ParseState {
    let top = st.stack.last();
    let rest = st.stack.drop_last();
    if rest.len() == 0 {
        ParseState { stack: rest, done: Some(top), started: st.started }
    } else {
        ParseState { stack: attach(rest, top), done: st.done, started: st.started }
    }
}

/// One token of the builder: `{` is skipped, `}` closes the innermost open
/// node, a label opens a node under it (or the root, if no node was opened
/// before).
pub open spec fn parse_step(
    st: ParseState,
    tok: Seq<u8>,
    d: Map<Seq<u8>, (LabelId, usize)>,
) -> Result<ParseState, ParseFault> {
    if tok == seq![TOKEN_START] {
        Ok(st)
    } else if tok == seq![TOKEN_END] {
        if st.stack.len() == 0 {
            Err(ParseFault::Format)
        } else {
            Ok(close_top(st))
        }
    } else if !d.contains_key(tok) {
        Err(ParseFault::UnknownLabel)
    } else if st.stack.len() == 0 && st.started {
        Err(ParseFault::Format)
    } else {
        Ok(
            ParseState {
                stack: st.stack.push(SpecTree { label: d[tok].0, children: Seq::empty() }),
                done: st.done,
                started: true,
            },
        )
    }
}

/// The builder after the first `n` tokens; the first token is skipped.
pub open spec fn parse_run(
    tokens: Seq<Seq<u8>>,
    d: Map<Seq<u8>, (LabelId, usize)>,
    n: int,
) -> Result<ParseState, ParseFault>
    decreases n,
{
    if n <= 1 {
        Ok(ParseState { stack: Seq::empty(), done: None, started: false })
    } else {
        match parse_run(tokens, d, n - 1) {
            Err(e) => Err(e),
            Ok(st) => parse_step(st, tokens[n - 1], d),
        }
    }
}

/// Closes every open node; the outermost one is the root.
pub open spec fn close_all(stack: Seq<SpecTree>) -> Option<SpecTree>
    decreases stack.len(),
{
    if stack.len() == 0 {
        None
    } else if stack.len() == 1 {
        Some(stack[0])
    } else {
        close_all(attach(stack.drop_last(), stack.last()))
    }
}

/// The tree that the tokens describe, if any, or why there is none.
pub open spec fn parse_result(
    tokens: Seq<Seq<u8>>,
    d: Map<Seq<u8>, (LabelId, usize)>,
) -> Result<Option<SpecTree>, ParseFault> {
    match parse_run(tokens, d, tokens.len() as int) {
        Err(e) => Err(e),
        Ok(st) => Ok(
            if st.stack.len() > 0 {
                close_all(st.stack)
            } else {
                st.done
            },
        ),
    }
}

/// The value of an optional finished root.
pub open spec fn option_view(t: Option<TreeNode>) -> Option<SpecTree> {
    match t {
        Some(n) => Some(tree_view(n)),
        None => None,
    }
}

proof fn lemma_forest_view_push(s: Seq<TreeNode>, x: TreeNode)
    ensures
        forest_view(s.push(x)) == forest_view(s).push(tree_view(x)),
{
    assert(s.push(x).drop_last() =~= s);
}

/// Once the builder has failed, it stays failed.
proof fn lemma_parse_run_err(tokens: Seq<Seq<u8>>, d: Map<Seq<u8>, (LabelId, usize)>, n: int, m: int)
    requires
        1 <= n <= m,
        parse_run(tokens, d, n) is Err,
    ensures
        parse_run(tokens, d, m) == parse_run(tokens, d, n),
    decreases m - n,
{
    if m > n {
        lemma_parse_run_err(tokens, d, n, m - 1);
    }
}

/// Closes the innermost open node of `stack`, appending it to its parent.
fn close_into_parent(stack: &mut Vec<TreeNode>)
    requires
        old(stack)@.len() >= 2,
    ensures
        forest_view(final(stack)@) == attach(
            forest_view(old(stack)@).drop_last(),
            forest_view(old(stack)@).last(),
        ),
        final(stack)@.len() == old(stack)@.len() - 1,
{
    let ghost s0 = stack@;
    proof {
        assert(s0.drop_last().push(s0.last()) =~= s0);
        lemma_forest_view_push(s0.drop_last(), s0.last());
        assert(s0.drop_last().drop_last().push(s0.drop_last().last()) =~= s0.drop_last());
        lemma_forest_view_push(s0.drop_last().drop_last(), s0.drop_last().last());
    }
    let top = stack.pop().unwrap();
    let mut parent = stack.pop().unwrap();
    let ghost pc = parent.children@;
    parent.children.push(top);
    proof {
        lemma_forest_view_push(pc, top);
    }
    stack.push(parent);
    proof {
        lemma_forest_view_push(s0.drop_last().drop_last(), parent);
    }
}

/// Builds a tree from tokens, looking labels up in `ld`. The first token
/// (the opening brace of the root) is skipped; brackets left open at the
/// end are closed.
pub fn parse_tree(tokens: &[Vec<u8>], ld: &LabelDict) -> (r: Result<ParsedTree, TreeParseError>)
    requires
        ld.wf(),
    ensures
        match parse_result(token_views(tokens@), ld@) {
            Ok(t) => r matches Ok(p) && crate::tree::parsed_view(p) == t,
            Err(ParseFault::Format) => r matches Err(e) && e is IncorrectFormat,
            Err(ParseFault::UnknownLabel) => r matches Err(e) && e is TokenizerError,
        },
{
    let ghost tv = token_views(tokens@);
    let ghost d = ld@;
    let mut stack: Vec<TreeNode> = Vec::new();
    let mut done: Option<TreeNode> = None;
    let mut started = false;
    let mut i: usize = 1;
    if tokens.len() == 0 {
        return Ok(ParsedTree { root: None });
    }
    while i < tokens.len()
        invariant
            ld.wf(),
            d == ld@,
            tv == token_views(tokens@),
            1 <= i <= tokens@.len(),
            parse_run(tv, d, i as int) == Ok::<ParseState, ParseFault>(
                ParseState { stack: forest_view(stack@), done: option_view(done), started },
            ),
        decreases tokens@.len() - i,
    {
        let tok = &tokens[i];
        let ghost st = ParseState { stack: forest_view(stack@), done: option_view(done), started };
        proof {
            assert(tv[i as int] == tok@);
            if tok@.len() == 1 {
                assert(tok@ == seq![tok@[0]]);
            }
            crate::tree::lemma_forest_view(stack@);
        }
        if tok.len() == 1 && tok[0] == TOKEN_START {
        } else if tok.len() == 1 && tok[0] == TOKEN_END {
            if stack.len() == 0 {
                proof {
                    lemma_parse_run_err(tv, d, i + 1, tv.len() as int);
                }
                return Err(format_error("Wrong bracket pairing"));
            } else if stack.len() == 1 {
                let top = stack.pop().unwrap();
                proof {
                    assert(stack@ =~= Seq::<TreeNode>::empty());
                    assert(forest_view(stack@) =~= st.stack.drop_last());
                }
                done = Some(top);
            } else {
                close_into_parent(&mut stack);
            }
        } else {
            match ld.get(tok.as_slice()) {
                None => {
                    proof {
                        lemma_parse_run_err(tv, d, i + 1, tv.len() as int);
                    }
                    return Err(TreeParseError::TokenizerError);
                },
                Some((label, _)) => {
                    if stack.len() == 0 && started {
                        proof {
                            lemma_parse_run_err(tv, d, i + 1, tv.len() as int);
                        }
                        return Err(format_error("Reached unexpected end of token"));
                    }
                    let ghost s0 = stack@;
                    let node = TreeNode { label, children: Vec::new() };
                    proof {
                        assert(node.children@ =~= Seq::<TreeNode>::empty());
                        assert(tree_view(node).children =~= Seq::<SpecTree>::empty());
                    }
                    stack.push(node);
                    proof {
                        lemma_forest_view_push(s0, node);
                    }
                    started = true;
                },
            }
        }
        i = i + 1;
    }
    let ghost final_stack = forest_view(stack@);
    proof {
        crate::tree::lemma_forest_view(stack@);
    }
    if stack.len() == 0 {
        return Ok(ParsedTree { root: done });
    }
    while stack.len() > 1
        invariant
            stack@.len() >= 1,
            close_all(forest_view(stack@)) == close_all(final_stack),
        decreases stack@.len(),
    {
        let ghost before = forest_view(stack@);
        proof {
            crate::tree::lemma_forest_view(stack@);
        }
        close_into_parent(&mut stack);
    }
    proof {
        crate::tree::lemma_forest_view(stack@);
        assert(forest_view(stack@) =~= seq![forest_view(stack@)[0]]);
    }
    let root = stack.pop().unwrap();
    Ok(ParsedTree { root: Some(root) })
}


/// The dictionary after interning the labels of the tree string `bytes`
/// into `m`.
pub open spec fn single_dict(
    m: Map<Seq<u8>, (LabelId, usize)>,
    bytes: Seq<u8>,
) -> Map<Seq<u8>, (LabelId, usize)> {
    intern_labels(m, m.len() as int, token_labels(tokens_of(bytes))).0
}

/// Parses one tree string in bracket notation, interning its labels into
/// `label_dict` first.
pub fn parse_single(tree_str: String, label_dict: &mut LabelDict) -> (r: ParsedTree)
    requires
        old(label_dict).wf(),
        vstd::utf8::is_ascii_chars(tree_str@),
        vstd::utf8::encode_utf8(tree_str@).len() < i32::MAX,
        tokenize_ok(vstd::utf8::encode_utf8(tree_str@)),
        old(label_dict)@.len() + token_labels(tokens_of(vstd::utf8::encode_utf8(tree_str@))).len()
            <= i32::MAX,
        forall|k: Seq<u8>|
            #[trigger] old(label_dict)@.contains_key(k) ==> old(label_dict)@[k].1 + token_labels(
                tokens_of(vstd::utf8::encode_utf8(tree_str@)),
            ).len() <= usize::MAX,
        parse_result(
            tokens_of(vstd::utf8::encode_utf8(tree_str@)),
            single_dict(old(label_dict)@, vstd::utf8::encode_utf8(tree_str@)),
        ) is Ok,
    ensures
        final(label_dict).wf(),
        final(label_dict)@ == single_dict(old(label_dict)@, vstd::utf8::encode_utf8(tree_str@)),
        parse_result(tokens_of(vstd::utf8::encode_utf8(tree_str@)), final(label_dict)@) == Ok::<
            Option<SpecTree>,
            ParseFault,
        >(crate::tree::parsed_view(r)),
{
    let ghost bytes = vstd::utf8::encode_utf8(tree_str@);
    let tokens = match parse_tree_tokens(tree_str.as_str()) {
        Ok(t) => t,
        Err(_) => {
            proof {
                assert(false);
            }
            return ParsedTree { root: None };
        },
    };
    let ghost tv = token_views(tokens@);
    let mut token_col: Vec<Vec<Vec<u8>>> = Vec::new();
    token_col.push(tokens);
    proof {
        let c = collection_views(token_col@);
        assert(c =~= seq![tv]);
        assert(c.drop_last() =~= Seq::<Seq<Seq<u8>>>::empty());
        assert(c.last() == tv);
        assert(collection_labels(c.drop_last()) =~= Seq::<Seq<u8>>::empty());
        assert(collection_labels(c) =~= token_labels(tv));
    }
    update_label_dict(token_col.as_slice(), label_dict);
    match parse_tree(token_col[0].as_slice(), label_dict) {
        Ok(t) => t,
        Err(_) => {
            proof {
                assert(false);
            }
            ParsedTree { root: None }
        },
    }
}

/// Decimal digits of `n`, most significant first.
pub open spec fn decimal_digits(n: nat) -> Seq<u8>
    decreases n,
{
    if n < 10 {
        seq![(48 + n) as u8]
    } else {
        decimal_digits(n / 10).push((48 + n % 10) as u8)
    }
}

/// Decimal text of `v`, with a leading minus sign when negative.
pub open spec fn decimal(v: int) -> Seq<u8> {
    if v < 0 {
        seq![45u8] + decimal_digits((-v) as nat)
    } else {
        decimal_digits(v as nat)
    }
}

/// Bracket notation of a tree whose labels are written as their decimal
/// identifiers.
pub open spec fn bracket_bytes(t: SpecTree) -> Seq<u8>
    decreases t,
{
    seq![TOKEN_START] + decimal(t.label as int) + forest_bracket_bytes(t.children) + seq![TOKEN_END]
}

/// Bracket notation of a sequence of trees, one after the other.
pub open spec fn forest_bracket_bytes(s: Seq<SpecTree>) -> Seq<u8>
    decreases s,
{
    if s.len() == 0 {
        Seq::empty()
    } else {
        forest_bracket_bytes(s.drop_last()) + bracket_bytes(s.last())
    }
}

/// Every byte is ASCII.
pub open spec fn all_ascii(b: Seq<u8>) -> bool {
    forall|i: int| 0 <= i < b.len() ==> #[trigger] b[i] < 128
}

/// Appends the decimal digits of `n`.
fn push_digits(n: u64, out: &mut Vec<u8>)
    ensures
        final(out)@ == old(out)@ + decimal_digits(n as nat),
    decreases n,
{
    if n >= 10 {
        push_digits(n / 10, out);
    }
    out.push((48 + n % 10) as u8);
    proof {
        if n >= 10 {
            assert(final(out)@ =~= old(out)@ + decimal_digits((n / 10) as nat).push((48 + n % 10) as u8));
        } else {
            assert(final(out)@ =~= old(out)@ + decimal_digits(n as nat));
        }
    }
}

proof fn lemma_decimal_digits_ascii(n: nat)
    ensures
        all_ascii(decimal_digits(n)),
    decreases n,
{
    if n >= 10 {
        lemma_decimal_digits_ascii(n / 10);
    }
}

/// Appends the bracket notation of the subtree at `node`.
fn push_bracket(node: &TreeNode, out: &mut Vec<u8>)
    ensures
        final(out)@ == old(out)@ + bracket_bytes(tree_view(*node)),
    decreases node,
{
    let ghost start = out@;
    out.push(TOKEN_START);
    let v = node.label as i64;
    if v < 0 {
        out.push(45u8);
        push_digits((-v) as u64, out);
    } else {
        push_digits(v as u64, out);
    }
    let ghost head = out@;
    proof {
        assert(head =~= start + seq![TOKEN_START] + decimal(node.label as int));
    }
    let n = node.children.len();
    let mut i: usize = 0;
    while i < n
        invariant
            i <= n,
            n == node.children@.len(),
            out@ == head + forest_bracket_bytes(forest_view(node.children@.take(i as int))),
        decreases n - i,
    {
        let ghost before = out@;
        push_bracket(&node.children[i], out);
        proof {
            crate::tree::lemma_take_succ(node.children@, i as int);
            lemma_forest_view_push(node.children@.take(i as int), node.children@[i as int]);
            assert(node.children@.take(i as int).push(node.children@[i as int]) =~= node.children@.take(i + 1));
            let fv = forest_view(node.children@.take(i + 1));
            assert(fv.drop_last() =~= forest_view(node.children@.take(i as int)));
        }
        i = i + 1;
    }
    out.push(TOKEN_END);
    proof {
        assert(node.children@.take(n as int) =~= node.children@);
        assert(out@ =~= start + bracket_bytes(tree_view(*node)));
    }
}

proof fn lemma_bracket_ascii(t: SpecTree)
    ensures
        all_ascii(bracket_bytes(t)),
    decreases t,
{
    lemma_forest_bracket_ascii(t.children);
    if t.label < 0 {
        lemma_decimal_digits_ascii((-t.label) as nat);
    } else {
        lemma_decimal_digits_ascii(t.label as nat);
    }
    let b = bracket_bytes(t);
    assert forall|i: int| 0 <= i < b.len() implies #[trigger] b[i] < 128 by {
        let a = seq![TOKEN_START] + decimal(t.label as int);
        let c = a + forest_bracket_bytes(t.children);
        if i < a.len() {
            if i > 0 && t.label < 0 && i >= 2 {
                assert(a[i] == decimal_digits((-t.label) as nat)[i - 2]);
            } else if i > 0 && t.label >= 0 {
                assert(a[i] == decimal_digits(t.label as nat)[i - 1]);
            }
        } else if i < c.len() {
            assert(c[i] == forest_bracket_bytes(t.children)[i - a.len()]);
        }
    }
}

proof fn lemma_forest_bracket_ascii(s: Seq<SpecTree>)
    ensures
        all_ascii(forest_bracket_bytes(s)),
    decreases s,
{
    if s.len() > 0 {
        lemma_forest_bracket_ascii(s.drop_last());
        lemma_bracket_ascii(s.last());
        let a = forest_bracket_bytes(s.drop_last());
        let b = bracket_bytes(s.last());
        assert forall|i: int| 0 <= i < (a + b).len() implies #[trigger] (a + b)[i] < 128 by {
            if i >= a.len() {
                assert((a + b)[i] == b[i - a.len()]);
            }
        }
    }
}

/// `String::from_utf8` (std): the string of the given ASCII bytes.
#[verifier::external_body]
fn ascii_string(bytes: Vec<u8>) -> (r: String)
    requires
        all_ascii(bytes@),
    ensures
        r@ == bytes@.map_values(|b: u8| b as char),
{
    match String::from_utf8(bytes) {
        Ok(s) => s,
        Err(_) => String::new(),
    }
}

/// The bracket notation of a non-empty tree, each label written as its
/// decimal identifier.
pub fn tree_to_bracket(tree: &ParsedTree) -> (r: String)
    requires
        tree.root is Some,
    ensures
        r@ == bracket_bytes(tree_view(tree.root->Some_0)).map_values(|b: u8| b as char),
{
    let root = match &tree.root {
        Some(n) => n,
        None => {
            proof {
                assert(false);
            }
            return String::new();
        },
    };
    let mut out: Vec<u8> = Vec::new();
    push_bracket(root, &mut out);
    proof {
        assert(out@ =~= bracket_bytes(tree_view(*root)));
        lemma_bracket_ascii(tree_view(*root));
    }
    ascii_string(out)
}


/// State of the one-pass dataset parser: the tree builder, the dictionary,
/// the last identifier handed out and the brace balance.
pub ghost struct DirectState {
    pub tree: ParseState,
    pub dict: Map<Seq<u8>, (LabelId, usize)>,
    pub last_id: int,
    pub depth: int,
}

/// Label texts that the one-pass parser skips: empty ones and lone braces.
pub open spec fn skipped_label(l: Seq<u8>) -> bool {
    l.len() == 0 || l == seq![TOKEN_START] || l == seq![TOKEN_END]
}

/// Interns one label: the dictionary and last identifier afterwards, and
/// the label's identifier.
pub open spec fn intern_one(
    m: Map<Seq<u8>, (LabelId, usize)>,
    last_id: int,
    l: Seq<u8>,
) -> (Map<Seq<u8>, (LabelId, usize)>, int, LabelId) {
    if m.contains_key(l) {
        (m.insert(l, (m[l].0, (m[l].1 + 1) as usize)), last_id, m[l].0)
    } else {
        (m.insert(l, ((last_id + 1) as LabelId, 1usize)), last_id + 1, (last_id + 1) as LabelId)
    }
}

/// One boundary of the one-pass parser; a fault stops it with the state
/// reached so far.
pub open spec fn direct_step(bytes: Seq<u8>, ps: Seq<usize>, j: int, st: DirectState) -> (
    DirectState,
    Option<ParseFault>,
) {
    if bytes[ps[j] as int] == TOKEN_START {
        let st1 = DirectState { depth: st.depth + 1, ..st };
        if j + 1 >= ps.len() {
            (st1, Some(ParseFault::Format))
        } else {
            let l = bytes.subrange(ps[j] + 1, ps[j + 1] as int);
            if skipped_label(l) {
                (st1, None)
            } else {
                let (m, id, label) = intern_one(st.dict, st.last_id, l);
                let st2 = DirectState { dict: m, last_id: id, ..st1 };
                if st.tree.stack.len() == 0 && st.tree.started {
                    (st2, Some(ParseFault::Format))
                } else {
                    (
                        DirectState {
                            tree: ParseState {
                                stack: st.tree.stack.push(
                                    SpecTree { label, children: Seq::empty() },
                                ),
                                done: st.tree.done,
                                started: true,
                            },
                            ..st2
                        },
                        None,
                    )
                }
            }
        }
    } else {
        let st1 = DirectState { depth: st.depth - 1, ..st };
        if st1.depth < 0 || st.tree.stack.len() == 0 {
            (st1, Some(ParseFault::Format))
        } else {
            (DirectState { tree: close_top(st.tree), ..st1 }, None)
        }
    }
}

/// The one-pass parser after the first `n` boundaries.
pub open spec fn direct_run(
    bytes: Seq<u8>,
    ps: Seq<usize>,
    n: int,
    m0: Map<Seq<u8>, (LabelId, usize)>,
    id0: int,
) -> (DirectState, Option<ParseFault>)
    decreases n,
{
    if n <= 0 {
        (
            DirectState {
                tree: ParseState { stack: Seq::empty(), done: None, started: false },
                dict: m0,
                last_id: id0,
                depth: 0,
            },
            None,
        )
    } else {
        let (st, f) = direct_run(bytes, ps, n - 1, m0, id0);
        if f is Some {
            (st, f)
        } else {
            direct_step(bytes, ps, n - 1, st)
        }
    }
}

/// Once the one-pass parser has failed, its state stays as it was.
proof fn lemma_direct_run_fault(
    bytes: Seq<u8>,
    ps: Seq<usize>,
    n: int,
    m: int,
    m0: Map<Seq<u8>, (LabelId, usize)>,
    id0: int,
)
    requires
        0 <= n <= m,
        direct_run(bytes, ps, n, m0, id0).1 is Some,
    ensures
        direct_run(bytes, ps, m, m0, id0) == direct_run(bytes, ps, n, m0, id0),
    decreases m - n,
{
    if m > n {
        lemma_direct_run_fault(bytes, ps, n, m - 1, m0, id0);
    }
}

/// The tree a builder state stands for once the input is over.
pub open spec fn finished_tree(st: ParseState) -> Option<SpecTree> {
    if st.stack.len() > 0 {
        close_all(st.stack)
    } else {
        st.done
    }
}

proof fn lemma_direct_run_bounds(
    bytes: Seq<u8>,
    ps: Seq<usize>,
    n: int,
    m0: Map<Seq<u8>, (LabelId, usize)>,
    id0: int,
)
    requires
        0 <= n <= ps.len(),
    ensures
        ({
            let (st, f) = direct_run(bytes, ps, n, m0, id0);
            &&& id0 <= st.last_id <= id0 + n
            &&& -n <= st.depth <= n
            &&& forall|k: Seq<u8>| #[trigger]
                st.dict.contains_key(k) ==> st.dict[k].1 <= (if m0.contains_key(k) {
                    m0[k].1 as int
                } else {
                    0
                }) + n
            &&& forall|k: Seq<u8>| m0.contains_key(k) ==> #[trigger] st.dict.contains_key(k)
        }),
    decreases n,
{
    if n > 0 {
        lemma_direct_run_bounds(bytes, ps, n - 1, m0, id0);
    }
}

/// Tokenizes one dataset line and builds its tree in the same pass,
/// interning labels into `ld` as they come (new labels get identifiers
/// after `*max_node_id`, which is advanced). Empty labels and lone escaped
/// braces are skipped; the brackets must balance.
pub fn parse_tree_directly(line: &[u8], ld: &mut LabelDict, max_node_id: &mut i32) -> (r: Result<
    ParsedTree,
    TreeParseError,
>)
    requires
        old(ld).wf(),
        line@.len() < i32::MAX,
        *old(max_node_id) >= 0,
        *old(max_node_id) + line@.len() <= i32::MAX,
        forall|k: Seq<u8>|
            #[trigger] old(ld)@.contains_key(k) ==> old(ld)@[k].1 + line@.len() <= usize::MAX,
    ensures
        final(ld).wf(),
        ({
            let ps = token_offsets(line@);
            if ps.len() < 2 {
                &&& final(ld)@ == old(ld)@
                &&& *final(max_node_id) == *old(max_node_id)
                &&& r matches Err(e) && e is IncorrectFormat
            } else {
                let (st, f) = direct_run(line@, ps, ps.len() as int, old(ld)@, *old(max_node_id) as int);
                &&& final(ld)@ == st.dict
                &&& *final(max_node_id) == st.last_id
                &&& (f is Some || st.depth != 0) ==> (r matches Err(e) && e is IncorrectFormat)
                &&& (f is None && st.depth == 0) ==> (r matches Ok(t) && crate::tree::parsed_view(t)
                    == finished_tree(st.tree))
            }
        }),
{
    let positions = token_positions(line);
    let ghost ps = positions@;
    let ghost m0 = ld@;
    let ghost id0 = *max_node_id as int;
    if positions.len() < 2 {
        return Err(format_error("Minimal of 2 brackets not found!"));
    }
    let mut stack: Vec<TreeNode> = Vec::new();
    let mut done: Option<TreeNode> = None;
    let mut started = false;
    let mut parity_check: i32 = 0;
    let mut i: usize = 0;
    while i < positions.len()
        invariant
            ld.wf(),
            ps == positions@,
            ps == token_offsets(line@),
            ps.len() >= 2,
            ps.len() <= line@.len(),
            line@.len() < i32::MAX,
            m0 == old(ld)@,
            id0 == *old(max_node_id),
            id0 >= 0,
            id0 + line@.len() <= i32::MAX,
            forall|k: Seq<u8>| #[trigger] m0.contains_key(k) ==> m0[k].1 + line@.len() <= usize::MAX,
            i <= ps.len(),
            forall|k: int| 0 <= k < ps.len() ==> #[trigger] ps[k] < line@.len() && is_brace(line@[ps[k] as int]),
            forall|a: int, b: int| 0 <= a < b < ps.len() ==> #[trigger] ps[a] < #[trigger] ps[b],
            ({
                let (st, f) = direct_run(line@, ps, i as int, m0, id0);
                &&& f is None
                &&& st.tree == ParseState { stack: forest_view(stack@), done: option_view(done), started }
                &&& st.dict == ld@
                &&& st.last_id == *max_node_id
                &&& st.depth == parity_check
            }),
        decreases ps.len() - i,
    {
        let token_pos = positions[i];
        let ghost st = direct_run(line@, ps, i as int, m0, id0).0;
        proof {
            lemma_direct_run_bounds(line@, ps, i as int, m0, id0);
            crate::tree::lemma_forest_view(stack@);
            assert(direct_run(line@, ps, i + 1, m0, id0) == direct_step(line@, ps, i as int, st));
        }
        if line[token_pos] == TOKEN_START {
            parity_check = parity_check + 1;
            if i + 1 >= positions.len() {
                proof {
                    lemma_direct_run_fault(line@, ps, i + 1, ps.len() as int, m0, id0);
                }
                return Err(TreeParseError::IncorrectFormat(no_ending_token_message(token_pos)));
            }
            let token_end = positions[i + 1];
            let label_bytes = &line[token_pos + 1..token_end];
            let skip = label_bytes.len() == 0 || (label_bytes.len() == 1 && (label_bytes[0]
                == TOKEN_START || label_bytes[0] == TOKEN_END));
            proof {
                if label_bytes@.len() == 1 {
                    assert(label_bytes@ == seq![label_bytes@[0]]);
                }
            }
            if !skip {
                let label_id = match ld.get(label_bytes) {
                    Some((id, count)) => {
                        ld.insert(label_bytes, id, count + 1);
                        id
                    },
                    None => {
                        *max_node_id = *max_node_id + 1;
                        let id = *max_node_id;
                        ld.insert(label_bytes, id, 1);
                        id
                    },
                };
                if stack.len() == 0 && started {
                    proof {
                        lemma_direct_run_fault(line@, ps, i + 1, ps.len() as int, m0, id0);
                    }
                    return Err(format_error("Multiple root nodes detected"));
                }
                let ghost s0 = stack@;
                let node = TreeNode { label: label_id, children: Vec::new() };
                proof {
                    assert(node.children@ =~= Seq::<TreeNode>::empty());
                    assert(tree_view(node).children =~= Seq::<SpecTree>::empty());
                }
                stack.push(node);
                proof {
                    lemma_forest_view_push(s0, node);
                }
                started = true;
            }
        } else {
            parity_check = parity_check - 1;
            if parity_check < 0 {
                proof {
                    lemma_direct_run_fault(line@, ps, i + 1, ps.len() as int, m0, id0);
                }
                return Err(format_error("Parity of brces does not match"));
            }
            if stack.len() == 0 {
                proof {
                    lemma_direct_run_fault(line@, ps, i + 1, ps.len() as int, m0, id0);
                }
                return Err(format_error("Wrong bracket pairing"));
            } else if stack.len() == 1 {
                let top = stack.pop().unwrap();
                proof {
                    assert(stack@ =~= Seq::<TreeNode>::empty());
                    assert(forest_view(stack@) =~= st.tree.stack.drop_last());
                }
                done = Some(top);
            } else {
                close_into_parent(&mut stack);
            }
        }
        i = i + 1;
    }
    if parity_check != 0 {
        return Err(format_error("Unbalanced brackets"));
    }
    let ghost final_stack = forest_view(stack@);
    proof {
        crate::tree::lemma_forest_view(stack@);
    }
    if stack.len() == 0 {
        return Ok(ParsedTree { root: done });
    }
    while stack.len() > 1
        invariant
            stack@.len() >= 1,
            close_all(forest_view(stack@)) == close_all(final_stack),
        decreases stack@.len(),
    {
        proof {
            crate::tree::lemma_forest_view(stack@);
        }
        close_into_parent(&mut stack);
    }
    proof {
        crate::tree::lemma_forest_view(stack@);
        assert(forest_view(stack@) =~= seq![forest_view(stack@)[0]]);
    }
    let root = stack.pop().unwrap();
    Ok(ParsedTree { root: Some(root) })
}

} // verus!
