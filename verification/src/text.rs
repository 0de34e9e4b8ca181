//! Comparing strings, and matching URL paths by whole segments.
use vstd::prelude::*;
use vstd::utf8::{
    char_is_scalar, char_u32_cast, encode_scalar, encode_utf8, encode_utf8_decode_utf8,
    encode_utf8_first_scalar,
};

verus! {

/// Whether a path prefix covers a path: the empty prefix covers every path, any other covers the
/// paths that begin with it and end there or go on with a slash.
pub open spec fn covers_path(prefix: Seq<char>, path: Seq<char>) -> bool {
    ||| prefix.len() == 0
    ||| prefix.is_prefix_of(path) && (path.len() == prefix.len() || path[prefix.len() as int]
        == '/')
}

proof fn lemma_encode_concat(a: Seq<char>, b: Seq<char>)
    ensures
        encode_utf8(a + b) == encode_utf8(a) + encode_utf8(b),
    decreases a.len(),
{
    if a.len() == 0 {
        assert(a + b =~= b);
        assert(encode_utf8(a) + encode_utf8(b) =~= encode_utf8(b));
    } else {
        lemma_encode_concat(a.drop_first(), b);
        assert((a + b).drop_first() =~= a.drop_first() + b);
        assert(encode_utf8(a + b) =~= encode_utf8(a) + encode_utf8(b));
    }
}

proof fn lemma_encode_injective(a: Seq<char>, b: Seq<char>)
    requires
        encode_utf8(a) == encode_utf8(b),
    ensures
        a == b,
{
    encode_utf8_decode_utf8(a);
    encode_utf8_decode_utf8(b);
}

/// Two texts begin alike exactly when their encodings do.
proof fn lemma_encode_prefix(prefix: Seq<char>, text: Seq<char>)
    requires
        encode_utf8(prefix).is_prefix_of(encode_utf8(text)),
    ensures
        prefix.is_prefix_of(text),
    decreases prefix.len(),
{
    let p = encode_utf8(prefix);
    let t = encode_utf8(text);
    if prefix.len() == 0 {
        assert(prefix =~= text.subrange(0, 0));
    } else {
        encode_utf8_first_scalar(prefix);
        let head = encode_scalar(prefix[0] as u32);
        assert(p.len() >= 1);
        if text.len() == 0 {
            assert(t.len() == 0);
            assert(false);
        }
        encode_utf8_first_scalar(text);
        assert forall|i: int| 0 <= i < p.len() implies p[i] == #[trigger] t[i] by {
            assert(p[i] == t.subrange(0, p.len() as int)[i]);
        }
        assert(prefix[0] as u32 == text[0] as u32);
        char_u32_cast(prefix[0], prefix[0] as u32);
        char_u32_cast(text[0], text[0] as u32);
        let n = head.len() as int;
        let p_rest = encode_utf8(prefix.drop_first());
        let t_rest = encode_utf8(text.drop_first());
        assert(p == head + p_rest);
        assert(t == head + t_rest);
        assert forall|i: int| 0 <= i < p_rest.len() implies p_rest[i] == #[trigger] t_rest[i] by {
            assert(p[i + n] == p_rest[i]);
            assert(t[i + n] == t_rest[i]);
        }
        assert(p_rest =~= t_rest.subrange(0, p_rest.len() as int));
        lemma_encode_prefix(prefix.drop_first(), text.drop_first());
        assert forall|i: int| 0 <= i < prefix.len() implies prefix[i] == #[trigger] text[i] by {
            if i > 0 {
                assert(prefix.drop_first()[i - 1] == text.drop_first().subrange(
                    0,
                    prefix.drop_first().len() as int,
                )[i - 1]);
            }
        }
        assert(prefix =~= text.subrange(0, prefix.len() as int));
    }
}

/// The first byte of an encoding is that of a slash exactly when the first character is a slash.
proof fn lemma_leading_slash(text: Seq<char>)
    requires
        text.len() > 0,
    ensures
        encode_utf8(text).len() > 0,
        encode_utf8(text)[0] == 0x2f <==> text[0] == '/',
{
    encode_utf8_first_scalar(text);
    char_is_scalar(text[0]);
    let c = text[0] as u32;
    char_u32_cast(text[0], c);
    assert(encode_utf8(text)[0] == encode_scalar(c)[0]);
    assert(c <= 0x7f ==> (c & 0x7f) as u8 == c) by (bit_vector);
    assert(0xC0u8 | ((c >> 6) & 0x1F) as u8 >= 0xC0u8) by (bit_vector);
    assert(0xE0u8 | ((c >> 12) & 0x0F) as u8 >= 0xE0u8) by (bit_vector);
    assert(0xF0u8 | ((c >> 18) & 0x7) as u8 >= 0xF0u8) by (bit_vector);
}

/// Whether two strings hold the same text.
pub fn same_text(a: &str, b: &str) -> (same: bool)
    ensures
        same == (a@ == b@),
{
    let left = a.as_bytes();
    let right = b.as_bytes();
    if left.len() != right.len() {
        return false;
    }
    let n: usize = left.len();
    let mut i: usize = 0;
    while i < n
        invariant
            i <= n,
            n == left@.len(),
            n == right@.len(),
            left@ == encode_utf8(a@),
            right@ == encode_utf8(b@),
            forall|j: int| 0 <= j < i ==> left@[j] == right@[j],
        decreases n - i,
    {
        if left[i] != right[i] {
            return false;
        }
        i += 1;
    }
    proof {
        assert(left@ =~= right@);
        lemma_encode_injective(a@, b@);
    }
    true
}

/// Whether `prefix` covers `path`, matching at segment boundaries: `/order` covers `/order`,
/// `/order/` and `/order/123`, but neither `/orders` nor `/order-test`.
pub fn prefix_covers(prefix: &str, path: &str) -> (covers: bool)
    ensures
        covers == covers_path(prefix@, path@),
{
    if prefix.is_empty() {
        return true;
    }
    let head = prefix.as_bytes();
    let whole = path.as_bytes();
    let n: usize = head.len();
    proof {
        if prefix@.is_prefix_of(path@) {
            let rest = path@.subrange(prefix@.len() as int, path@.len() as int);
            assert(path@ =~= prefix@ + rest);
            lemma_encode_concat(prefix@, rest);
        }
    }
    if whole.len() < n {
        return false;
    }
    let mut i: usize = 0;
    while i < n
        invariant
            i <= n,
            n == head@.len(),
            n <= whole@.len(),
            head@ == encode_utf8(prefix@),
            whole@ == encode_utf8(path@),
            prefix@.len() > 0,
            prefix@.is_prefix_of(path@) ==> head@.is_prefix_of(whole@),
            forall|j: int| 0 <= j < i ==> head@[j] == whole@[j],
        decreases n - i,
    {
        if head[i] != whole[i] {
            proof {
                if prefix@.is_prefix_of(path@) {
                    assert(head@[i as int] == whole@.subrange(0, n as int)[i as int]);
                }
            }
            return false;
        }
        i += 1;
    }
    proof {
        assert(head@ =~= whole@.subrange(0, n as int));
        lemma_encode_prefix(prefix@, path@);
        let rest = path@.subrange(prefix@.len() as int, path@.len() as int);
        assert(path@ =~= prefix@ + rest);
        lemma_encode_concat(prefix@, rest);
        if rest.len() > 0 {
            lemma_leading_slash(rest);
            assert(rest[0] == path@[prefix@.len() as int]);
            assert(whole@[n as int] == encode_utf8(rest)[0]);
        }
    }
    whole.len() == n || whole[n] == 0x2f
}

} // verus!
