//! Why the encoded form of a text means what the text means: the proofs
//! behind the laws of the codec.

use vstd::prelude::*;
use crate::bytesize::{frame, lemma_frame_reads_back};
use crate::error::ParseError;
use crate::grammar::{
    element_start, json_array, json_element_link, json_elements_from, json_member_link,
    json_members_from, json_object, json_pair, json_value, lemma_array, lemma_element_link,
    lemma_elements, lemma_member_link, lemma_members, lemma_object, lemma_pair, lemma_value,
    member_start, pair_value_start,
};
use crate::json::Json;
use crate::layout::{lemma_record_size, record};
use crate::mask::{ARRAY_MASK, OBJECT_MASK, STRING_MASK};
use crate::number::non_header_byte::HAS_LENGTH_MASK;
use crate::number::{
    count_of, json_number, length_pred, lemma_number_reads_back, lemma_symbols_valid,
    number_record,
};
use crate::runs::{all_zero, lemma_run_len_is, lemma_run_len_props, run_len, zeros};
use crate::skip_zeroes::{zero_pred, zero_run};
use crate::string::{json_string, lemma_unescape_shrinks, string_record, unescape};
use crate::tlv::{container_record, lemma_container_size};
use crate::tree::{
    lemma_tree, lemma_walk_elements_rule, lemma_walk_members_rule, member_value_start,
    tlv_elements, tlv_members, tlv_value,
};
use crate::true_false_null::json_scalar;
use crate::ws::ws_len;

verus! {

/// Padding in front of bytes adds to the padding that they begin with.
pub proof fn lemma_zero_run_behind_padding(g: nat, x: Seq<u8>)
    ensures
        zero_run(zeros(g) + x) == g + zero_run(x),
        (zeros(g) + x).skip((g + zero_run(x)) as int) == x.skip(zero_run(x) as int),
        zero_run(x) <= x.len(),
{
    let q = zeros(g) + x;
    let k = zero_run(x);
    lemma_run_len_props(x, zero_pred());
    assert forall|i: int| 0 <= i < g + k implies zero_pred()(#[trigger] q[i]) by {
        if i >= g {
            assert(q[i] == x[i - g]);
        }
    }
    if g + k < q.len() {
        assert(q[(g + k) as int] == x[k as int]);
    }
    lemma_run_len_is(q, zero_pred(), g + k);
    assert(q.skip((g + k) as int) =~= x.skip(k as int));
}

/// Bytes that begin with a byte other than zero begin with no padding.
pub proof fn lemma_no_padding(x: Seq<u8>)
    requires
        x.len() > 0,
        x[0] != 0,
    ensures
        zero_run(x) == 0,
{
    lemma_run_len_is(x, zero_pred(), 0);
}

/// Bytes that are all zero are all padding.
pub proof fn lemma_all_padding(x: Seq<u8>)
    requires
        all_zero(x),
    ensures
        zero_run(x) == x.len(),
        tlv_elements(x) == Ok::<Seq<Json>, ParseError>(Seq::empty()),
        tlv_members(x) == Ok::<Seq<(Seq<u8>, Json)>, ParseError>(Seq::empty()),
{
    assert forall|i: int| 0 <= i < x.len() implies zero_pred()(#[trigger] x[i]) by {}
    lemma_run_len_is(x, zero_pred(), x.len());
    lemma_walk_elements_rule(x);
    lemma_walk_members_rule(x);
}

/// The symbol count of a number record depends only on the bytes that
/// carry it.
proof fn lemma_count_of_prefix(t: Seq<u8>, u: Seq<u8>, k: nat)
    requires
        k <= t.len(),
        k <= u.len(),
        forall|i: int| 0 <= i < k ==> t[i] == u[i],
    ensures
        count_of(t, k) == count_of(u, k),
    decreases k,
{
    if k > 0 {
        lemma_count_of_prefix(t, u, (k - 1) as nat);
    }
}

/// A number record depends only on its own bytes, as long as no byte that
/// looks like one more part of the symbol count follows it.
proof fn lemma_number_record_stable(b: Seq<u8>, c: Seq<u8>)
    requires
        number_record(b) is Ok,
        c.len() >= number_record(b)->Ok_0.1,
        c.subrange(0, number_record(b)->Ok_0.1 as int) == b.subrange(
            0,
            number_record(b)->Ok_0.1 as int,
        ),
        b.len() == number_record(b)->Ok_0.1 || b[number_record(b)->Ok_0.1 as int]
            < HAS_LENGTH_MASK,
        c.len() == number_record(b)->Ok_0.1 || c[number_record(b)->Ok_0.1 as int]
            < HAS_LENGTH_MASK,
    ensures
        number_record(c) == number_record(b),
{
    let n = number_record(b)->Ok_0.1;
    let cut = b.subrange(0, n as int);
    assert(cut[0] == b[0] && cut[0] == c[0]);
    let header = crate::number::header_byte::read_header(b[0])->Ok_0;
    if !header.multibyte {
    } else {
        let tb = b.skip(1);
        let tc = c.skip(1);
        let k = run_len(tb, length_pred());
        lemma_run_len_props(tb, length_pred());
        if k >= n {
            assert(length_pred()(tb[n - 1]));
            assert(tb[n - 1] == b[n as int]);
        }
        assert forall|i: int| 0 <= i < n - 1 implies tb[i] == tc[i] by {
            assert(tb[i] == cut[i + 1]);
            assert(tc[i] == cut[i + 1]);
        }
        assert forall|i: int| 0 <= i < k implies length_pred()(#[trigger] tc[i]) by {
            assert(length_pred()(tb[i]));
        }
        if k < tc.len() {
            if k < n - 1 {
                assert(tc[k as int] == tb[k as int]);
            } else {
                assert(tc[k as int] == c[n as int]);
            }
        }
        lemma_run_len_is(tc, length_pred(), k);
        lemma_count_of_prefix(tb, tc, k);
        assert(Seq::new(n, |i: int| b[i] % 16) =~= Seq::new(n, |i: int| c[i] % 16)) by {
            assert forall|i: int| 0 <= i < n implies b[i] == c[i] by {
                assert(cut[i] == b[i]);
                assert(cut[i] == c[i]);
            }
        }
    }
}

/// The record of a string, an array or an object depends only on its own
/// bytes.
pub proof fn lemma_container_stable(b: Seq<u8>, c: Seq<u8>, tag: u8)
    requires
        container_record(b, tag) is Ok,
        c.len() >= container_record(b, tag)->Ok_0.1,
        c.subrange(0, container_record(b, tag)->Ok_0.1 as int) == b.subrange(
            0,
            container_record(b, tag)->Ok_0.1 as int,
        ),
    ensures
        container_record(c, tag) == container_record(b, tag),
{
    let n = container_record(b, tag)->Ok_0.1;
    let cut = b.subrange(0, n as int);
    lemma_container_size(b, tag);
    assert(cut[0] == b[0] && cut[0] == c[0]);
    if n >= 2 {
        assert(cut[1] == b[1] && cut[1] == c[1]);
    }
    let off = crate::bytesize::field_offset(b[0]);
    assert(c.subrange(off as int, n as int) =~= b.subrange(off as int, n as int)) by {
        assert forall|i: int| off <= i < n implies b[i] == c[i] by {
            assert(cut[i] == b[i]);
            assert(cut[i] == c[i]);
        }
    }
}

/// A record depends only on its own bytes, as long as no byte that looks
/// like a part of a symbol count follows it.
pub proof fn lemma_record_stable(b: Seq<u8>, c: Seq<u8>)
    requires
        record(b) is Ok,
        c.len() >= record(b)->Ok_0.1,
        c.subrange(0, record(b)->Ok_0.1 as int) == b.subrange(0, record(b)->Ok_0.1 as int),
        b.len() == record(b)->Ok_0.1 || b[record(b)->Ok_0.1 as int] < HAS_LENGTH_MASK,
        c.len() == record(b)->Ok_0.1 || c[record(b)->Ok_0.1 as int] < HAS_LENGTH_MASK,
    ensures
        record(c) == record(b),
{
    let n = record(b)->Ok_0.1;
    let cut = b.subrange(0, n as int);
    lemma_record_size(b);
    assert(cut[0] == b[0] && cut[0] == c[0]);
    let tag = crate::mask::type_bits(b[0]);
    if tag == OBJECT_MASK {
        lemma_container_stable(b, c, OBJECT_MASK);
    } else if tag == ARRAY_MASK {
        lemma_container_stable(b, c, ARRAY_MASK);
    } else if tag == STRING_MASK {
        lemma_container_stable(b, c, STRING_MASK);
    } else if tag == crate::mask::NUMBER_MASK {
        lemma_number_record_stable(b, c);
    } else {
    }
}

/// The tree of a record depends only on the bytes of the record, as long as
/// no byte that looks like a part of a symbol count follows it.
pub proof fn lemma_tree_stable(b: Seq<u8>, c: Seq<u8>)
    requires
        tlv_value(b) is Ok,
        c.len() >= tlv_value(b)->Ok_0.1,
        c.subrange(0, tlv_value(b)->Ok_0.1 as int) == b.subrange(0, tlv_value(b)->Ok_0.1 as int),
        b.len() == tlv_value(b)->Ok_0.1 || b[tlv_value(b)->Ok_0.1 as int] < HAS_LENGTH_MASK,
        c.len() == tlv_value(b)->Ok_0.1 || c[tlv_value(b)->Ok_0.1 as int] < HAS_LENGTH_MASK,
    ensures
        tlv_value(c) == tlv_value(b),
{
    lemma_tree(b);
    lemma_tree(c);
    lemma_record_stable(b, c);
}

/// What it means that `image` is the image of a token with the tree `tree`:
/// behind padding it holds a record with that tree, and padding fills what
/// is left of it.
pub open spec fn holds(image: Seq<u8>, tree: Json) -> bool {
    let k = zero_run(image);
    &&& k < image.len()
    &&& tlv_value(image.skip(k as int)) matches Ok((found, n)) && found == tree && 0 < n && k + n
        <= image.len() && all_zero(image.skip((k + n) as int))
}

/// Padding in front of an image leaves the tree that it holds.
proof fn lemma_holds_behind_padding(g: nat, image: Seq<u8>, tree: Json)
    requires
        holds(image, tree),
    ensures
        holds(zeros(g) + image, tree),
{
    lemma_zero_run_behind_padding(g, image);
    let k = zero_run(image);
    let n = tlv_value(image.skip(k as int))->Ok_0.1;
    let q = zeros(g) + image;
    assert(q.skip((g + k + n) as int) =~= image.skip((k + n) as int));
}

/// An image whose first bytes are a record and whose other bytes are
/// padding holds the tree of the record.
proof fn lemma_record_holds(image: Seq<u8>, tree: Json, n: nat)
    requires
        tlv_value(image) == Ok::<(Json, nat), ParseError>((tree, n)),
        0 < n <= image.len(),
        image[0] != 0,
        all_zero(image.skip(n as int)),
    ensures
        holds(image, tree),
{
    lemma_no_padding(image);
    assert(image.skip(0) =~= image);
}

/// The image of a keyword holds it.
proof fn lemma_scalar_holds(s: Seq<u8>)
    ensures
        json_scalar(s) matches Ok(t) ==> holds(t.image, t.tree),
{
    reveal(json_scalar);
    if let Ok(t) = json_scalar(s) {
        lemma_tree(t.image);
        let n = t.image.len();
        assert(t.image.skip(n as int) =~= Seq::<u8>::empty());
        assert(crate::mask::type_bits(t.image[0]) != OBJECT_MASK);
        lemma_record_holds(t.image, t.tree, n);
    }
}

/// The image of a number holds it.
proof fn lemma_number_holds(s: Seq<u8>)
    ensures
        json_number(s) matches Ok(t) ==> holds(t.image, t.tree),
{
    lemma_symbols_valid(s);
    if let Ok(t) = json_number(s) {
        let symbols = t.tree->Number_0;
        lemma_number_reads_back(symbols, Seq::empty());
        assert(t.image + Seq::<u8>::empty() =~= t.image);
        lemma_tree(t.image);
        let n = t.image.len();
        assert(t.image.skip(n as int) =~= Seq::<u8>::empty());
        crate::mask::lemma_number_tag(t.image[0]);
        lemma_record_holds(t.image, t.tree, n);
    }
}

/// What the image of a string is made of: the record of its bytes, and
/// padding.
pub proof fn lemma_string_record(s: Seq<u8>, rest: Seq<u8>)
    ensures
        json_string(s) matches Ok(t) ==> {
            &&& t.tree matches Json::String(content)
            &&& string_record(t.image + rest) matches Ok((bytes, n)) && bytes == content && 0 < n
                <= t.image.len() && all_zero(t.image.skip(n as int))
            &&& t.image[0] != 0
        },
{
    reveal(json_string);
    if let Ok(t) = json_string(s) {
        let u = unescape(s.skip(1))->Ok_0;
        lemma_unescape_shrinks(s.skip(1));
        let pad = zeros((u.raw - 1 - u.content.len()) as nat);
        let f = frame(STRING_MASK, u.content.len(), u.content);
        lemma_frame_reads_back(STRING_MASK, u.content, pad + rest);
        assert(f + (pad + rest) =~= t.image + rest);
        let b = t.image + rest;
        let off: nat = if u.content.len() <= 15 {
            1
        } else {
            2
        };
        let n = off + u.content.len();
        assert(b.subrange(off as int, n as int) =~= f.subrange(off as int, n as int));
        assert(b[0] == f[0]);
        assert(t.image[0] == f[0]);
        let after = t.image.skip(n as int);
        assert forall|i: int| 0 <= i < after.len() implies #[trigger] after[i] == 0 by {
            if n + i < f.len() {
                assert(t.image[n + i] == f[n + i]);
            } else {
                assert(t.image[n + i] == pad[n + i - f.len()]);
            }
        }
    }
}

/// The image of a string holds it.
proof fn lemma_string_holds(s: Seq<u8>)
    ensures
        json_string(s) matches Ok(t) ==> holds(t.image, t.tree),
{
    lemma_string_record(s, Seq::empty());
    if let Ok(t) = json_string(s) {
        assert(t.image + Seq::<u8>::empty() =~= t.image);
        lemma_tree(t.image);
        lemma_container_size(t.image, STRING_MASK);
        let n = string_record(t.image)->Ok_0.1;
        lemma_record_holds(t.image, t.tree, n);
    }
}

/// What the record of an array or an object with the given body is.
pub proof fn lemma_container_record(tag: u8, body: Seq<u8>)
    requires
        tag == ARRAY_MASK || tag == OBJECT_MASK,
        1 <= body.len() <= 2048,
    ensures
        container_record(frame(tag, (body.len() - 1) as nat, body.drop_last()), tag) matches Ok(
            (payload, n),
        ) && payload == body.drop_last() && 0 < n <= body.len() + 1 && all_zero(
            frame(tag, (body.len() - 1) as nat, body.drop_last()).skip(n as int),
        ),
        frame(tag, (body.len() - 1) as nat, body.drop_last())[0] != 0,
        frame(tag, (body.len() - 1) as nat, body.drop_last()).len() == body.len() + 1,
{
    let area = body.drop_last();
    let f = frame(tag, area.len(), area);
    lemma_frame_reads_back(tag, area, Seq::empty());
    assert(f + Seq::<u8>::empty() =~= f);
    let off: nat = if area.len() <= 15 {
        1
    } else {
        2
    };
    let n = off + area.len();
    let after = f.skip(n as int);
    assert forall|i: int| 0 <= i < after.len() implies #[trigger] after[i] == 0 by {}
}

/// An image that holds a tree, with padding in front of it and bytes
/// behind it that begin with padding: behind the padding stands the record
/// with its tree, and behind the record padding and those bytes.
proof fn lemma_embedded(z: nat, image: Seq<u8>, tree: Json, tail: Seq<u8>)
    requires
        holds(image, tree),
        tail.len() == 0 || tail[0] == 0,
    ensures
        zero_run(zeros(z) + image + tail) == z + zero_run(image),
        tlv_value((zeros(z) + image + tail).skip((z + zero_run(image)) as int)) == tlv_value(
            image.skip(zero_run(image) as int),
        ),
        (zeros(z) + image + tail).skip(
            (z + zero_run(image) + tlv_value(image.skip(zero_run(image) as int))->Ok_0.1) as int,
        ) == zeros(
            (image.len() - zero_run(image) - tlv_value(
                image.skip(zero_run(image) as int),
            )->Ok_0.1) as nat,
        ) + tail,
{
    let q = zeros(z) + image + tail;
    let k = zero_run(image);
    let b = image.skip(k as int);
    let n = tlv_value(b)->Ok_0.1;
    lemma_run_len_props(image, zero_pred());
    assert(q =~= zeros(z) + (image + tail));
    lemma_zero_run_behind_padding(z, image + tail);
    assert forall|i: int| 0 <= i < k implies zero_pred()(#[trigger] (image + tail)[i]) by {
        assert((image + tail)[i] == image[i]);
    }
    assert((image + tail)[k as int] == image[k as int]);
    lemma_run_len_is(image + tail, zero_pred(), k);
    let c = q.skip((z + k) as int);
    assert(c =~= b + tail);
    assert(c.subrange(0, n as int) =~= b.subrange(0, n as int));
    if b.len() > n {
        assert(b[n as int] == image.skip((k + n) as int)[0]);
        assert(c[n as int] == b[n as int]);
    } else if c.len() > n {
        assert(c[n as int] == tail[0]);
    }
    lemma_tree_stable(b, c);
    let left = (image.len() - k - n) as nat;
    let after = q.skip((z + k + n) as int);
    let gap = image.skip((k + n) as int);
    assert forall|i: int| 0 <= i < left implies #[trigger] after[i] == 0 by {
        assert(after[i] == gap[i]);
    }
    assert(after =~= zeros(left) + tail);
}

/// A record with a tree, then padding, then more elements: the elements of
/// the whole are the tree and those that follow.
proof fn lemma_cons_element(g: nat, image: Seq<u8>, tree: Json, tail: Seq<u8>, trees: Seq<Json>)
    requires
        holds(image, tree),
        tlv_elements(tail) == Ok::<Seq<Json>, ParseError>(trees),
        tail.len() == 0 || tail[0] == 0,
    ensures
        tlv_elements(zeros(g) + image + tail) == Ok::<Seq<Json>, ParseError>(seq![tree] + trees),
{
    let q = zeros(g) + image + tail;
    let k = zero_run(image);
    let n = tlv_value(image.skip(k as int))->Ok_0.1;
    lemma_embedded(g, image, tree, tail);
    lemma_elements_behind_padding((image.len() - k - n) as nat, tail);
    lemma_walk_elements_rule(q);
}

/// A key of the text with bytes behind its image and padding in front of
/// it: behind the padding stands the record of the key, and behind the
/// record padding and those bytes.
proof fn lemma_key_in_front(g: nat, key_text: Seq<u8>, behind: Seq<u8>)
    requires
        json_string(key_text) is Ok,
    ensures
        zero_run(zeros(g) + json_string(key_text)->Ok_0.image + behind) == g,
        string_record((zeros(g) + json_string(key_text)->Ok_0.image + behind).skip(g as int))
            matches Ok((key, nk)) && key == json_string(key_text)->Ok_0.tree->String_0 && 0 < nk
            <= json_string(key_text)->Ok_0.image.len() && (zeros(g) + json_string(
            key_text,
        )->Ok_0.image + behind).skip((g + nk) as int) == zeros(
            (json_string(key_text)->Ok_0.image.len() - nk) as nat,
        ) + behind,
{
    let key_image = json_string(key_text)->Ok_0.image;
    let q = zeros(g) + key_image + behind;
    lemma_string_record(key_text, behind);
    let nk = string_record(key_image + behind)->Ok_0.1;
    assert(q =~= zeros(g) + (key_image + behind));
    lemma_zero_run_behind_padding(g, key_image + behind);
    assert((key_image + behind)[0] == key_image[0]);
    lemma_no_padding(key_image + behind);
    assert(q.skip(g as int) =~= key_image + behind);
    let zk = (key_image.len() - nk) as nat;
    let after_key = q.skip((g + nk) as int);
    let key_pad = key_image.skip(nk as int);
    assert forall|i: int| 0 <= i < zk implies #[trigger] after_key[i] == 0 by {
        assert(after_key[i] == key_pad[i]);
    }
    assert(after_key =~= zeros(zk) + behind);
}

/// Padding in front of a payload leaves its elements and its members.
proof fn lemma_elements_behind_padding(z: nat, x: Seq<u8>)
    ensures
        tlv_elements(zeros(z) + x) == tlv_elements(x),
        tlv_members(zeros(z) + x) == tlv_members(x),
{
    let q = zeros(z) + x;
    let k = zero_run(x);
    lemma_zero_run_behind_padding(z, x);
    lemma_walk_elements_rule(q);
    lemma_walk_elements_rule(x);
    lemma_walk_members_rule(q);
    lemma_walk_members_rule(x);
    if k < x.len() {
        let first = tlv_value(x.skip(k as int));
        if let Ok((tree, n)) = first {
            if k + n <= x.len() {
                assert(q.skip((z + k + n) as int) =~= x.skip((k + n) as int));
            }
        }
        if let Ok((key, n)) = string_record(x.skip(k as int)) {
            lemma_container_size(x.skip(k as int), STRING_MASK);
            assert(q.skip((z + k + n) as int) =~= x.skip((k + n) as int));
            let start = member_value_start(x);
            assert(member_value_start(q) == z + start);
            lemma_run_len_props(x.skip((k + n) as int), zero_pred());
            assert(q.skip((z + start) as int) =~= x.skip(start as int));
            if let Ok((tree, n2)) = tlv_value(x.skip(start as int)) {
                if start + n2 <= x.len() {
                    assert(q.skip((z + start + n2) as int) =~= x.skip((start + n2) as int));
                }
            }
        }
    }
}

/// A key, padding, a record with a tree, padding, then more members: the
/// members of the whole are the key with the tree and those that follow.
proof fn lemma_cons_member(
    g: nat,
    key_text: Seq<u8>,
    gap: nat,
    image: Seq<u8>,
    tree: Json,
    tail: Seq<u8>,
    pairs: Seq<(Seq<u8>, Json)>,
)
    requires
        json_string(key_text) is Ok,
        gap >= 1,
        holds(image, tree),
        tlv_members(tail) == Ok::<Seq<(Seq<u8>, Json)>, ParseError>(pairs),
        tail.len() == 0 || tail[0] == 0,
    ensures
        tlv_members(zeros(g) + json_string(key_text)->Ok_0.image + zeros(gap) + image + tail)
            == Ok::<Seq<(Seq<u8>, Json)>, ParseError>(
            seq![(json_string(key_text)->Ok_0.tree->String_0, tree)] + pairs,
        ),
{
    let key_image = json_string(key_text)->Ok_0.image;
    let q = zeros(g) + key_image + zeros(gap) + image + tail;
    let behind = zeros(gap) + image + tail;
    assert(q =~= zeros(g) + key_image + behind);
    lemma_key_in_front(g, key_text, behind);
    let nk = string_record(q.skip(g as int))->Ok_0.1;
    let zk = (key_image.len() - nk) as nat;
    let r = zeros(zk + gap) + image + tail;
    assert(zeros(zk) + behind =~= r);
    lemma_embedded(zk + gap, image, tree, tail);
    let k = zero_run(image);
    let n = tlv_value(image.skip(k as int))->Ok_0.1;
    lemma_run_len_props(image, zero_pred());
    let start = g + nk + zk + gap + k;
    assert(member_value_start(q) == start);
    assert(q.skip(start as int) =~= r.skip((zk + gap + k) as int));
    assert(q.skip((start + n) as int) =~= r.skip((zk + gap + k + n) as int));
    lemma_elements_behind_padding((image.len() - k - n) as nat, tail);
    lemma_walk_members_rule(q);
}

/// The image of every value of the text holds the tree of the value.
pub proof fn lemma_value_holds(s: Seq<u8>)
    ensures
        json_value(s) matches Ok(t) ==> holds(t.image, t.tree),
    decreases s.len(), 3nat,
{
    lemma_value(s);
    let w = ws_len(s);
    if let Ok(t) = json_value(s) {
        lemma_run_len_props(s, crate::ws::ws_pred());
        let inner = s.skip(w as int);
        lemma_object_holds(inner);
        lemma_array_holds(inner);
        lemma_string_holds(inner);
        lemma_number_holds(inner);
        lemma_scalar_holds(inner);
        let c = s[w as int];
        let token = if c == crate::ascii::OPEN_BRACE {
            json_object(inner)
        } else if c == crate::ascii::OPEN_BRACKET {
            json_array(inner)
        } else if c == crate::ascii::QUOTE {
            json_string(inner)
        } else if crate::number::header_byte::is_number_start(c) {
            json_number(inner)
        } else {
            json_scalar(inner)
        }->Ok_0;
        lemma_holds_behind_padding(w, token.image, token.tree);
    }
}

/// The image of every array of the text holds the tree of the array.
pub proof fn lemma_array_holds(s: Seq<u8>)
    ensures
        json_array(s) matches Ok(t) ==> holds(t.image, t.tree),
    decreases s.len(), 2nat,
{
    lemma_array(s);
    if let Ok(t) = json_array(s) {
        let list = json_elements_from(s.skip(1), true)->Ok_0;
        lemma_elements_hold(s.skip(1), true);
        lemma_container_record(ARRAY_MASK, list.image);
        let f = t.image;
        let n = container_record(f, ARRAY_MASK)->Ok_0.1;
        lemma_container_size(f, ARRAY_MASK);
        lemma_tree(f);
        lemma_record_holds(f, t.tree, n);
    }
}

/// The image of every object of the text holds the tree of the object.
pub proof fn lemma_object_holds(s: Seq<u8>)
    ensures
        json_object(s) matches Ok(t) ==> holds(t.image, t.tree),
    decreases s.len(), 2nat,
{
    lemma_object(s);
    if let Ok(t) = json_object(s) {
        let list = json_members_from(s.skip(1), true)->Ok_0;
        lemma_members_hold(s.skip(1), true);
        lemma_container_record(OBJECT_MASK, list.image);
        let f = t.image;
        let n = container_record(f, OBJECT_MASK)->Ok_0.1;
        lemma_container_size(f, OBJECT_MASK);
        lemma_tree(f);
        lemma_record_holds(f, t.tree, n);
    }
}

/// The image of the elements of an array, without its last byte, is a
/// payload that holds their trees.
pub proof fn lemma_elements_hold(s: Seq<u8>, first: bool)
    ensures
        json_elements_from(s, first) matches Ok(list) ==> {
            &&& list.image.len() >= 1
            &&& tlv_elements(list.image.drop_last()) == Ok::<Seq<Json>, ParseError>(list.trees)
            &&& !first ==> list.image[0] == 0
        },
    decreases s.len(), 5nat,
{
    lemma_elements(s, first);
    lemma_element_link(s, first);
    if let Ok(list) = json_elements_from(s, first) {
        let link = json_element_link(s, first)->Ok_0;
        let w = ws_len(s);
        match link.tree {
            None => {
                assert(list.image.drop_last() =~= zeros(w));
                lemma_all_padding(zeros(w));
            },
            Some(tree) => {
                let g = element_start(s, first);
                let token = json_value(s.skip(g as int))->Ok_0;
                lemma_run_len_props(s, crate::ws::ws_pred());
                lemma_value_holds(s.skip(g as int));
                let rest = json_elements_from(s.skip(link.image.len() as int), false)->Ok_0;
                lemma_elements_hold(s.skip(link.image.len() as int), false);
                let tail = rest.image.drop_last();
                assert(list.image.drop_last() =~= zeros(g) + token.image + tail);
                if tail.len() > 0 {
                    assert(tail[0] == rest.image[0]);
                }
                lemma_cons_element(g, token.image, token.tree, tail, rest.trees);
                if !first {
                    assert(list.image[0] == zeros(g)[0]);
                }
            },
        }
    }
}

/// The image of the members of an object, without its last byte, is a
/// payload that holds their keys and trees.
pub proof fn lemma_members_hold(s: Seq<u8>, first: bool)
    ensures
        json_members_from(s, first) matches Ok(list) ==> {
            &&& list.image.len() >= 1
            &&& tlv_members(list.image.drop_last()) == Ok::<Seq<(Seq<u8>, Json)>, ParseError>(
                list.pairs,
            )
            &&& !first ==> list.image[0] == 0
        },
    decreases s.len(), 7nat,
{
    lemma_members(s, first);
    lemma_member_link(s, first);
    if let Ok(list) = json_members_from(s, first) {
        let link = json_member_link(s, first)->Ok_0;
        let w = ws_len(s);
        match link.pair {
            None => {
                assert(list.image.drop_last() =~= zeros(w));
                lemma_all_padding(zeros(w));
            },
            Some(pair) => {
                let g = member_start(s, first);
                let text = s.skip(g as int);
                lemma_pair(text);
                let m = json_pair(text)->Ok_0;
                let key = json_string(text)->Ok_0;
                let s1 = text.skip(key.image.len() as int);
                let gap = ws_len(s1) + 1;
                lemma_run_len_props(s1, crate::ws::ws_pred());
                let value_text = text.skip(pair_value_start(text) as int);
                let value = json_value(value_text)->Ok_0;
                lemma_value_holds(value_text);
                let rest = json_members_from(s.skip(link.image.len() as int), false)->Ok_0;
                lemma_members_hold(s.skip(link.image.len() as int), false);
                let tail = rest.image.drop_last();
                assert(list.image.drop_last() =~= zeros(g) + key.image + zeros(gap) + value.image
                    + tail);
                if tail.len() > 0 {
                    assert(tail[0] == rest.image[0]);
                }
                lemma_cons_member(g, text, gap, value.image, value.tree, tail, rest.pairs);
                if !first {
                    assert(list.image[0] == zeros(g)[0]);
                }
            },
        }
    }
}

} // verus!
