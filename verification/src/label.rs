//! Labels: waypoint names cut to the width of the device's label field.
//!
//! A label is UTF-8 text of at most [`LABEL_WIDTH`] bytes. A longer name
//! is cut at the last character boundary that still fits, so no character
//! is ever split. A waypoint without a name gets the empty label.
use vstd::prelude::*;
use vstd::string::*;
use vstd::utf8::*;

verus! {

/// The most bytes of text a label can hold.
pub const LABEL_WIDTH: usize = 31;

/// The last character boundary of `bytes` at or before position `k`.
pub open spec fn floor_boundary(bytes: Seq<u8>, k: int) -> int
    decreases k,
{
    if k <= 0 {
        0
    } else if is_char_boundary(bytes, k) {
        k
    } else {
        floor_boundary(bytes, k - 1)
    }
}

/// Where a name with the encoding `bytes` is cut: nowhere if it fits,
/// else at the last character boundary within the label width.
pub open spec fn cut_point(bytes: Seq<u8>) -> int {
    if bytes.len() <= LABEL_WIDTH {
        bytes.len() as int
    } else {
        floor_boundary(bytes, LABEL_WIDTH as int)
    }
}

/// The text of `name` that a label keeps.
pub open spec fn truncated(name: Seq<char>) -> Seq<char> {
    let bytes = encode_utf8(name);
    if bytes.len() <= LABEL_WIDTH {
        name
    } else {
        decode_utf8(bytes.subrange(0, cut_point(bytes)))
    }
}

/// The label of a waypoint whose name is `name`: the empty text when it
/// has none.
pub open spec fn label_of(name: Option<Seq<char>>) -> Seq<char> {
    match name {
        Some(text) => truncated(text),
        None => Seq::empty(),
    }
}

/// `floor_boundary` is a character boundary between 0 and `k`, and no
/// boundary lies between it and `k`.
pub proof fn lemma_floor_boundary(bytes: Seq<u8>, k: int)
    requires
        valid_utf8(bytes),
        0 <= k <= bytes.len(),
    ensures
        0 <= floor_boundary(bytes, k) <= k,
        is_char_boundary(bytes, floor_boundary(bytes, k)),
        forall|j: int| floor_boundary(bytes, k) < j <= k ==> !is_char_boundary(bytes, j),
    decreases k,
{
    if k > 0 && !is_char_boundary(bytes, k) {
        lemma_floor_boundary(bytes, k - 1);
    }
}

/// Some character boundary lies at most three bytes before any position:
/// a character takes at most four bytes.
proof fn lemma_nearby_boundary(bytes: Seq<u8>, k: int) -> (j: int)
    requires
        valid_utf8(bytes),
        0 <= k <= bytes.len(),
    ensures
        0 <= j <= k,
        k - 3 <= j,
        is_char_boundary(bytes, j),
    decreases bytes.len(),
{
    if k <= 3 {
        0
    } else {
        let first = length_of_first_scalar(bytes);
        let rest = pop_first_scalar(bytes);
        assert(1 <= first <= 4 && first <= bytes.len());
        let inner = lemma_nearby_boundary(rest, k - first);
        assert(is_char_boundary(bytes, inner + first));
        inner + first
    }
}

/// Cutting loses less than one character: the cut falls at most three
/// bytes short of the position asked for.
pub proof fn lemma_floor_boundary_is_close(bytes: Seq<u8>, k: int)
    requires
        valid_utf8(bytes),
        0 <= k <= bytes.len(),
    ensures
        k - 3 <= floor_boundary(bytes, k) <= k,
        is_char_boundary(bytes, k) ==> floor_boundary(bytes, k) == k,
{
    lemma_floor_boundary(bytes, k);
    let j = lemma_nearby_boundary(bytes, k);
}

/// What a label keeps of a name, in bytes: the name's encoding up to the
/// cut point. The label fits the field, is a prefix of the name, and
/// where the name is too long it falls short of the full width by less
/// than one character.
pub proof fn lemma_truncated(name: Seq<char>)
    ensures
        encode_utf8(truncated(name)) == encode_utf8(name).subrange(
            0,
            cut_point(encode_utf8(name)),
        ),
        encode_utf8(truncated(name)).len() == cut_point(encode_utf8(name)),
        encode_utf8(truncated(name)).len() <= LABEL_WIDTH,
        truncated(name).len() <= name.len(),
        truncated(name) == name.subrange(0, truncated(name).len() as int),
        encode_utf8(name).len() > LABEL_WIDTH ==> {
            &&& LABEL_WIDTH - 3 <= encode_utf8(truncated(name)).len()
            &&& (is_char_boundary(encode_utf8(name), LABEL_WIDTH as int) ==> encode_utf8(
                truncated(name),
            ).len() == LABEL_WIDTH)
            &&& forall|j: int|
                cut_point(encode_utf8(name)) < j <= LABEL_WIDTH ==> !is_char_boundary(
                    encode_utf8(name),
                    j,
                )
        },
{
    broadcast use group_utf8_lib;

    let bytes = encode_utf8(name);
    if bytes.len() <= LABEL_WIDTH {
        assert(bytes.subrange(0, bytes.len() as int) == bytes);
        assert(name.subrange(0, name.len() as int) == name);
    } else {
        let width = LABEL_WIDTH as int;
        lemma_floor_boundary(bytes, width);
        lemma_floor_boundary_is_close(bytes, width);
        let cut = cut_point(bytes);
        let head = bytes.subrange(0, cut);
        let tail = bytes.subrange(cut, bytes.len() as int);
        valid_utf8_split(bytes, cut);
        decode_utf8_split(bytes, cut);
        decode_utf8_encode_utf8(head);
        assert(name == decode_utf8(head) + decode_utf8(tail));
        assert(decode_utf8(head) == name.subrange(0, decode_utf8(head).len() as int));
    }
}

/// Cuts a name to the label width without splitting a character.
pub fn truncate_label(name: &str) -> (label: String)
    ensures
        label@ == truncated(name@),
        encode_utf8(label@).len() <= LABEL_WIDTH,
{
    broadcast use group_utf8_lib;

    proof {
        lemma_truncated(name@);
    }
    if name.as_bytes().len() <= LABEL_WIDTH {
        return name.to_owned();
    }
    let ghost bytes = encode_utf8(name@);
    let mut k: usize = LABEL_WIDTH;
    while !name.is_char_boundary(k)
        invariant
            bytes == encode_utf8(name@),
            valid_utf8(bytes),
            k <= LABEL_WIDTH < bytes.len(),
            floor_boundary(bytes, k as int) == floor_boundary(bytes, LABEL_WIDTH as int),
        decreases k,
    {
        k = k - 1;
    }
    let (head, _) = name.split_at(k);
    proof {
        assert(floor_boundary(bytes, k as int) == k);
        assert(encode_utf8(head@) == bytes.subrange(0, k as int));
        encode_utf8_decode_utf8(head@);
    }
    head.to_owned()
}

/// The label for a waypoint's name: the name cut to the label width, or
/// the empty label when there is no name.
pub fn make_label(name: &Option<String>) -> (label: String)
    ensures
        label@ == label_of(option_text(*name)),
        encode_utf8(label@).len() <= LABEL_WIDTH,
{
    match name {
        Some(text) => truncate_label(text.as_str()),
        None => {
            let label = String::new();
            assert(encode_utf8(label@).len() == 0);
            label
        },
    }
}

/// The text of an optional string.
pub open spec fn option_text(name: Option<String>) -> Option<Seq<char>> {
    match name {
        Some(text) => Some(text@),
        None => None,
    }
}

} // verus!
