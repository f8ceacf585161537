//! Names as the library orders and prints them: the order of Rust strings,
//! stated on their UTF-8 bytes, and the decimal form of an index.

use vstd::prelude::*;
use vstd::string::*;
use vstd::utf8::*;

verus! {

/// Lexicographic order on byte strings: the first differing byte decides, and a
/// proper prefix comes first.
pub open spec fn bytes_lt(a: Seq<u8>, b: Seq<u8>) -> bool
    decreases a.len(),
{
    if b.len() == 0 {
        false
    } else if a.len() == 0 {
        true
    } else if a[0] != b[0] {
        a[0] < b[0]
    } else {
        bytes_lt(a.drop_first(), b.drop_first())
    }
}

/// The order of two names: that of their UTF-8 encodings, which is how Rust
/// orders strings.
pub open spec fn name_lt(a: Seq<char>, b: Seq<char>) -> bool {
    bytes_lt(encode_utf8(a), encode_utf8(b))
}

/// No byte string comes before itself.
proof fn lemma_bytes_lt_irreflexive(a: Seq<u8>)
    ensures
        !bytes_lt(a, a),
    decreases a.len(),
{
    if a.len() > 0 {
        lemma_bytes_lt_irreflexive(a.drop_first());
    }
}

/// The order of byte strings is transitive.
proof fn lemma_bytes_lt_transitive(a: Seq<u8>, b: Seq<u8>, c: Seq<u8>)
    requires
        bytes_lt(a, b),
        bytes_lt(b, c),
    ensures
        bytes_lt(a, c),
    decreases a.len(),
{
    if a.len() > 0 && a[0] == b[0] && b[0] == c[0] {
        lemma_bytes_lt_transitive(a.drop_first(), b.drop_first(), c.drop_first());
    }
}

/// Two byte strings that differ are ordered one way or the other.
proof fn lemma_bytes_lt_connected(a: Seq<u8>, b: Seq<u8>)
    requires
        a != b,
    ensures
        bytes_lt(a, b) || bytes_lt(b, a),
    decreases a.len(),
{
    if a.len() > 0 && b.len() > 0 && a[0] == b[0] {
        if a.drop_first() == b.drop_first() {
            assert(a =~= seq![a[0]] + a.drop_first());
            assert(b =~= seq![b[0]] + b.drop_first());
        } else {
            lemma_bytes_lt_connected(a.drop_first(), b.drop_first());
        }
    } else if a.len() == 0 && b.len() == 0 {
        assert(a =~= b);
    }
}

/// No name comes before itself.
pub proof fn lemma_name_lt_irreflexive(a: Seq<char>)
    ensures
        !name_lt(a, a),
{
    lemma_bytes_lt_irreflexive(encode_utf8(a));
}

/// The order of names is transitive.
pub proof fn lemma_name_lt_transitive(a: Seq<char>, b: Seq<char>, c: Seq<char>)
    requires
        name_lt(a, b),
        name_lt(b, c),
    ensures
        name_lt(a, c),
{
    lemma_bytes_lt_transitive(encode_utf8(a), encode_utf8(b), encode_utf8(c));
}

/// Two names that differ are ordered one way or the other, and never both.
pub proof fn lemma_name_lt_connected(a: Seq<char>, b: Seq<char>)
    ensures
        a != b ==> name_lt(a, b) || name_lt(b, a),
        !(name_lt(a, b) && name_lt(b, a)),
{
    if a != b {
        if encode_utf8(a) == encode_utf8(b) {
            encode_utf8_decode_utf8(a);
            encode_utf8_decode_utf8(b);
        } else {
            lemma_bytes_lt_connected(encode_utf8(a), encode_utf8(b));
        }
    }
    if name_lt(a, b) && name_lt(b, a) {
        lemma_name_lt_transitive(a, b, a);
        lemma_name_lt_irreflexive(a);
    }
}

/// Whether `a` comes strictly before `b`.
pub fn name_less(a: &str, b: &str) -> (r: bool)
    ensures
        r == name_lt(a@, b@),
{
    let x = a.as_bytes();
    let y = b.as_bytes();
    let n = x.len();
    let m = y.len();
    let mut i: usize = 0;
    assert(x@.skip(0) =~= x@);
    assert(y@.skip(0) =~= y@);
    while i < n && i < m
        invariant
            x@ == encode_utf8(a@),
            y@ == encode_utf8(b@),
            n == x@.len(),
            m == y@.len(),
            i <= n,
            i <= m,
            bytes_lt(x@, y@) == bytes_lt(x@.skip(i as int), y@.skip(i as int)),
        decreases n - i,
    {
        assert(x@.skip(i as int).drop_first() =~= x@.skip(i + 1));
        assert(y@.skip(i as int).drop_first() =~= y@.skip(i + 1));
        assert(x@.skip(i as int)[0] == x@[i as int]);
        assert(y@.skip(i as int)[0] == y@[i as int]);
        if x[i] != y[i] {
            return x[i] < y[i];
        }
        i += 1;
    }
    i < m
}

/// The decimal digit of a number below ten.
pub open spec fn digit_char(d: nat) -> char {
    if d == 0 {
        '0'
    } else if d == 1 {
        '1'
    } else if d == 2 {
        '2'
    } else if d == 3 {
        '3'
    } else if d == 4 {
        '4'
    } else if d == 5 {
        '5'
    } else if d == 6 {
        '6'
    } else if d == 7 {
        '7'
    } else if d == 8 {
        '8'
    } else {
        '9'
    }
}

/// A number in decimal, without leading zeros.
pub open spec fn decimal(n: nat) -> Seq<char>
    decreases n,
{
    if n < 10 {
        seq![digit_char(n)]
    } else {
        decimal(n / 10).push(digit_char(n % 10))
    }
}

/// The digit as a text of one character.
fn digit_str(d: usize) -> (s: &'static str)
    requires
        d < 10,
    ensures
        s@ == seq![digit_char(d as nat)],
{
    proof {
        reveal_strlit("0");
        reveal_strlit("1");
        reveal_strlit("2");
        reveal_strlit("3");
        reveal_strlit("4");
        reveal_strlit("5");
        reveal_strlit("6");
        reveal_strlit("7");
        reveal_strlit("8");
        reveal_strlit("9");
    }
    let s = if d == 0 {
        "0"
    } else if d == 1 {
        "1"
    } else if d == 2 {
        "2"
    } else if d == 3 {
        "3"
    } else if d == 4 {
        "4"
    } else if d == 5 {
        "5"
    } else if d == 6 {
        "6"
    } else if d == 7 {
        "7"
    } else if d == 8 {
        "8"
    } else {
        "9"
    };
    assert(s@ =~= seq![digit_char(d as nat)]);
    s
}

/// Appends the decimal form of `n` to `out`.
pub fn push_decimal(out: &mut String, n: usize)
    ensures
        final(out)@ == old(out)@ + decimal(n as nat),
    decreases n,
{
    if n >= 10 {
        push_decimal(out, n / 10);
    }
    out.append(digit_str(n % 10));
    proof {
        if n >= 10 {
            assert(old(out)@ + decimal((n / 10) as nat) + seq![digit_char((n % 10) as nat)]
                =~= old(out)@ + decimal(n as nat));
        } else {
            assert(old(out)@ + seq![digit_char((n % 10) as nat)] =~= old(out)@ + decimal(
                n as nat,
            ));
        }
    }
}

/// Whether a name can be handed to the solver as a symbol: it holds no
/// character of code zero.
pub open spec fn c_safe(name: Seq<char>) -> bool {
    forall|i: int| 0 <= i < name.len() ==> name[i] as u32 != 0
}

/// The encoding of a character holds a zero byte exactly if the character
/// has the code zero.
proof fn lemma_scalar_zero_byte(v: u32)
    requires
        is_scalar(v),
    ensures
        v != 0 ==> forall|j: int|
            0 <= j < encode_scalar(v).len() ==> #[trigger] encode_scalar(v)[j] != 0,
        v == 0 ==> encode_scalar(v) == seq![0u8],
{
    assert(v <= 0x7f ==> (((v & 0x7f) as u8 == 0) <==> v == 0)) by (bit_vector);
    assert(forall|x: u8| 0xC0u8 | x != 0) by (bit_vector);
    assert(forall|x: u8| 0xE0u8 | x != 0) by (bit_vector);
    assert(forall|x: u8| 0xF0u8 | x != 0) by (bit_vector);
    assert(forall|x: u8| 0x80u8 | x != 0) by (bit_vector);
}

/// A name holds a character of code zero exactly if its encoding holds a zero
/// byte.
proof fn lemma_c_safe_bytes(name: Seq<char>)
    ensures
        c_safe(name) <==> forall|j: int|
            0 <= j < encode_utf8(name).len() ==> #[trigger] encode_utf8(name)[j] != 0,
    decreases name.len(),
{
    if name.len() > 0 {
        let head = encode_scalar(name[0] as u32);
        let rest = name.drop_first();
        let tail = encode_utf8(rest);
        lemma_c_safe_bytes(rest);
        char_is_scalar(name[0]);
        lemma_scalar_zero_byte(name[0] as u32);
        assert(encode_utf8(name) == head + tail);
        if c_safe(name) {
            assert forall|i: int| 0 <= i < rest.len() implies rest[i] as u32 != 0 by {
                assert(rest[i] == name[i + 1]);
            }
            assert forall|j: int| 0 <= j < encode_utf8(name).len() implies #[trigger] encode_utf8(
                name,
            )[j] != 0 by {
                if j >= head.len() {
                    assert(encode_utf8(name)[j] == tail[j - head.len()]);
                } else {
                    assert(encode_utf8(name)[j] == head[j]);
                }
            }
        } else {
            let i = choose|i: int| 0 <= i < name.len() && name[i] as u32 == 0;
            if i == 0 {
                assert(encode_utf8(name)[0] == head[0]);
            } else {
                assert(rest[i - 1] == name[i]);
                assert(!c_safe(rest));
                let j = choose|j: int| 0 <= j < tail.len() && tail[j] == 0;
                assert(encode_utf8(name)[head.len() + j] == tail[j]);
            }
        }
    }
}

/// Two names one after the other are safe exactly if both are.
pub proof fn lemma_c_safe_concat(a: Seq<char>, b: Seq<char>)
    ensures
        c_safe(a + b) <==> c_safe(a) && c_safe(b),
{
    if c_safe(a + b) {
        assert forall|i: int| 0 <= i < a.len() implies a[i] as u32 != 0 by {
            assert((a + b)[i] == a[i]);
        }
        assert forall|i: int| 0 <= i < b.len() implies b[i] as u32 != 0 by {
            assert((a + b)[a.len() + i] == b[i]);
        }
    }
}

/// Whether `s` holds no character of code zero.
pub fn is_c_safe(s: &str) -> (b: bool)
    ensures
        b == c_safe(s@),
{
    let bytes = s.as_bytes();
    let mut i: usize = 0;
    proof {
        lemma_c_safe_bytes(s@);
    }
    while i < bytes.len()
        invariant
            i <= bytes@.len(),
            bytes@ == encode_utf8(s@),
            forall|j: int| 0 <= j < i ==> bytes@[j] != 0,
            c_safe(s@) <==> forall|j: int|
                0 <= j < encode_utf8(s@).len() ==> #[trigger] encode_utf8(s@)[j] != 0,
        decreases bytes@.len() - i,
    {
        if bytes[i] == 0 {
            return false;
        }
        i += 1;
    }
    true
}

/// The decimal form of a number is safe.
pub proof fn lemma_decimal_c_safe(n: nat)
    ensures
        c_safe(decimal(n)),
    decreases n,
{
    if n >= 10 {
        lemma_decimal_c_safe(n / 10);
    }
}

/// Whether a character is white space: whether it is one of the code points
/// to which Unicode gives the property `White_Space`.
pub open spec fn is_whitespace(c: char) -> bool {
    let code = c as u32;
    ||| 0x9 <= code <= 0xD
    ||| code == 0x20
    ||| code == 0x85
    ||| code == 0xA0
    ||| code == 0x1680
    ||| 0x2000 <= code <= 0x200A
    ||| code == 0x2028
    ||| code == 0x2029
    ||| code == 0x202F
    ||| code == 0x205F
    ||| code == 0x3000
}

/// Whether a character is white space.
pub fn char_is_whitespace(c: char) -> (b: bool)
    ensures
        b == is_whitespace(c),
{
    let code: u32 = c as u32;
    (0x9 <= code && code <= 0xD) || code == 0x20 || code == 0x85 || code == 0xA0 || code == 0x1680
        || (0x2000 <= code && code <= 0x200A) || code == 0x2028 || code == 0x2029 || code
        == 0x202F || code == 0x205F || code == 0x3000
}

/// The number of white-space characters that `s` begins with.
pub open spec fn leading_space(s: Seq<char>) -> nat
    decreases s.len(),
{
    if s.len() > 0 && is_whitespace(s[0]) {
        1 + leading_space(s.drop_first())
    } else {
        0
    }
}

/// The number of white-space characters that `s` ends with.
pub open spec fn trailing_space(s: Seq<char>) -> nat
    decreases s.len(),
{
    if s.len() > 0 && is_whitespace(s.last()) {
        1 + trailing_space(s.drop_last())
    } else {
        0
    }
}

/// `s` without the white space that it begins and ends with.
pub open spec fn trim_of(s: Seq<char>) -> Seq<char> {
    if leading_space(s) == s.len() {
        Seq::empty()
    } else {
        s.subrange(leading_space(s) as int, s.len() - trailing_space(s))
    }
}

/// The leading white space ends at the first character that is none.
proof fn lemma_leading_space_is(s: Seq<char>, i: int)
    requires
        0 <= i <= s.len(),
        forall|j: int| 0 <= j < i ==> is_whitespace(#[trigger] s[j]),
        i < s.len() ==> !is_whitespace(s[i]),
    ensures
        leading_space(s) == i,
    decreases s.len(),
{
    if i > 0 {
        let t = s.drop_first();
        assert(is_whitespace(s[0]));
        assert forall|j: int| 0 <= j < i - 1 implies is_whitespace(#[trigger] t[j]) by {
            assert(t[j] == s[j + 1]);
        }
        if i - 1 < t.len() {
            assert(t[i - 1] == s[i]);
        }
        lemma_leading_space_is(t, i - 1);
    }
}

/// The trailing white space begins after the last character that is none.
proof fn lemma_trailing_space_is(s: Seq<char>, i: int)
    requires
        0 <= i <= s.len(),
        forall|j: int| s.len() - i <= j < s.len() ==> is_whitespace(#[trigger] s[j]),
        i < s.len() ==> !is_whitespace(s[s.len() - 1 - i]),
    ensures
        trailing_space(s) == i,
    decreases s.len(),
{
    if i > 0 {
        let t = s.drop_last();
        assert(is_whitespace(s[s.len() - 1]));
        assert forall|j: int| t.len() - (i - 1) <= j < t.len() implies is_whitespace(
            #[trigger] t[j],
        ) by {
            assert(t[j] == s[j]);
        }
        if i - 1 < t.len() {
            assert(t[t.len() - 1 - (i - 1)] == s[s.len() - 1 - i]);
        }
        lemma_trailing_space_is(t, i - 1);
    }
}

/// The text without the white space that it begins and ends with.
pub fn trim(s: &str) -> (r: &str)
    ensures
        r@ == trim_of(s@),
{
    let n = s.unicode_len();
    let mut start: usize = 0;
    while start < n && char_is_whitespace(s.get_char(start))
        invariant
            start <= n,
            n == s@.len(),
            forall|j: int| 0 <= j < start ==> is_whitespace(#[trigger] s@[j]),
        decreases n - start,
    {
        start += 1;
    }
    proof {
        lemma_leading_space_is(s@, start as int);
    }
    if start == n {
        let r = s.substring_char(n, n);
        assert(r@ =~= Seq::<char>::empty());
        return r;
    }
    let mut end: usize = n;
    while end > start + 1 && char_is_whitespace(s.get_char(end - 1))
        invariant
            start < end <= n,
            n == s@.len(),
            !is_whitespace(s@[start as int]),
            forall|j: int| end <= j < n ==> is_whitespace(#[trigger] s@[j]),
        decreases end,
    {
        end -= 1;
    }
    proof {
        lemma_trailing_space_is(s@, n - end);
    }
    s.substring_char(start, end)
}

/// The names that a list of strings holds.
pub open spec fn names(v: Seq<String>) -> Seq<Seq<char>> {
    Seq::new(v.len(), |i: int| v[i]@)
}

/// Whether no name occurs twice in the list.
pub open spec fn distinct_names(all: Seq<Seq<char>>) -> bool {
    forall|i: int, j: int| 0 <= i < j < all.len() ==> all[i] != all[j]
}

/// The first index at which `all` holds `name`.
pub open spec fn position_of(all: Seq<Seq<char>>, name: Seq<char>) -> Option<int>
    decreases all.len(),
{
    if all.len() == 0 {
        None
    } else if all[0] == name {
        Some(0)
    } else {
        match position_of(all.drop_first(), name) {
            Some(i) => Some(i + 1),
            None => None,
        }
    }
}

/// The position of a name is the first index that holds it, and there is none
/// exactly if no index holds it.
pub proof fn lemma_position_of(all: Seq<Seq<char>>, name: Seq<char>)
    ensures
        position_of(all, name) matches Some(i) ==> 0 <= i < all.len() && all[i] == name
            && forall|j: int| 0 <= j < i ==> all[j] != name,
        position_of(all, name) is None ==> forall|j: int| 0 <= j < all.len() ==> all[j] != name,
    decreases all.len(),
{
    if all.len() > 0 && all[0] != name {
        let rest = all.drop_first();
        lemma_position_of(rest, name);
        match position_of(rest, name) {
            Some(i) => {
                assert(all[i + 1] == rest[i]);
                assert forall|j: int| 0 <= j < i + 1 implies all[j] != name by {
                    if j > 0 {
                        assert(all[j] == rest[j - 1]);
                    }
                }
            },
            None => {
                assert forall|j: int| 0 <= j < all.len() implies all[j] != name by {
                    if j > 0 {
                        assert(all[j] == rest[j - 1]);
                    }
                }
            },
        }
    }
}

/// The parts one after another, with `sep` between each two.
pub open spec fn join(parts: Seq<Seq<char>>, sep: Seq<char>) -> Seq<char>
    decreases parts.len(),
{
    if parts.len() == 0 {
        Seq::empty()
    } else if parts.len() == 1 {
        parts[0]
    } else {
        join(parts.drop_last(), sep) + sep + parts.last()
    }
}

/// Appends the parts to `out`, with `sep` between each two.
pub fn push_joined(out: &mut String, parts: &Vec<String>, sep: &str)
    ensures
        final(out)@ == old(out)@ + join(names(parts@), sep@),
{
    let ghost all = names(parts@);
    let mut i: usize = 0;
    assert(out@ =~= old(out)@ + join(all.take(0), sep@));
    while i < parts.len()
        invariant
            i <= parts@.len(),
            all == names(parts@),
            out@ == old(out)@ + join(all.take(i as int), sep@),
        decreases parts@.len() - i,
    {
        if i > 0 {
            out.append(sep);
        }
        out.append(parts[i].as_str());
        proof {
            let before = all.take(i as int);
            let after = all.take(i + 1);
            assert(after.drop_last() =~= before);
            assert(after.last() == parts@[i as int]@);
            if i > 0 {
                assert(out@ =~= old(out)@ + (join(before, sep@) + sep@ + after.last()));
            } else {
                assert(join(before, sep@) =~= Seq::<char>::empty());
                assert(out@ =~= old(out)@ + after[0]);
            }
        }
        i += 1;
    }
    assert(all.take(i as int) =~= all);
}

} // verus!
