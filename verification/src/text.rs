//! Text: decimal numbers, separators, prefixes, byte order and UTF-8.
use vstd::prelude::*;
use vstd::utf8::*;

verus! {

/// `String::push` appends one character.
pub assume_specification[ String::push ](s: &mut String, c: char)
    ensures
        final(s)@ == old(s)@.push(c),
;

/// `String::from_utf8` accepts exactly the well-formed UTF-8 byte strings; the
/// text it returns has those bytes. A malformed input is answered by `None`.
#[verifier::external_body]
fn checked_utf8(bytes: Vec<u8>) -> (r: Option<String>)
    ensures
        r is Some == valid_utf8(bytes@),
        r matches Some(t) ==> encode_utf8(t@) == bytes@,
{
    String::from_utf8(bytes).ok()
}

/// The text that the bytes encode, where they are well-formed UTF-8.
pub fn utf8_text(bytes: &[u8]) -> (r: Option<String>)
    ensures
        r is Some == valid_utf8(bytes@),
        r matches Some(t) ==> t@ == decode_utf8(bytes@) && encode_utf8(t@) == bytes@,
{
    let r = checked_utf8(vstd::slice::slice_to_vec(bytes));
    proof {
        if r is Some {
            encode_utf8_decode_utf8(r->0@);
        }
    }
    r
}

/// The characters of a text.
pub fn chars_of(s: &str) -> (r: Vec<char>)
    ensures
        r@ == s@,
{
    let mut r: Vec<char> = Vec::new();
    for c in it: s.chars()
        invariant
            r@ == s@.take(it.index()),
            it.seq() == s@,
    {
        r.push(c);
    }
    assert(s@.take(s@.len() as int) =~= s@);
    r
}

/// The text made of the characters `from..to`.
pub fn text_of(chars: &Vec<char>, from: usize, to: usize) -> (r: String)
    requires
        from <= to <= chars@.len(),
    ensures
        r@ == chars@.subrange(from as int, to as int),
{
    let mut r: String = String::new();
    let mut i: usize = from;
    while i < to
        invariant
            from <= i <= to <= chars@.len(),
            r@ == chars@.subrange(from as int, i as int),
        decreases to - i,
    {
        r.push(chars[i]);
        assert(chars@.subrange(from as int, i + 1) =~= chars@.subrange(from as int, i as int).push(chars@[i as int]));
        i += 1;
    }
    r
}

/// The decimal digit `d`.
pub open spec fn digit_char(d: int) -> char
    recommends
        0 <= d < 10,
{
    (48 + d) as char
}

/// A number in decimal, without leading zeros.
pub open spec fn digits(n: nat) -> Seq<char>
    decreases n,
{
    if n < 10 {
        seq![digit_char(n as int)]
    } else {
        digits(n / 10).push(digit_char((n % 10) as int))
    }
}

/// `n` times the character zero.
pub open spec fn zeros(n: int) -> Seq<char> {
    Seq::new(if n > 0 { n as nat } else { 0 }, |i: int| '0')
}

/// The magnitude of a number.
pub open spec fn magnitude(n: int) -> nat {
    if n < 0 { (-n) as nat } else { n as nat }
}

/// A number in decimal with at least `width` characters, filled with zeros
/// behind the sign.
pub open spec fn padded(n: int, width: int) -> Seq<char> {
    let body = digits(magnitude(n));
    if n < 0 {
        seq!['-'] + zeros(width - 1 - body.len()) + body
    } else {
        zeros(width - body.len()) + body
    }
}

/// A number in decimal with a minus sign where it is negative.
pub open spec fn decimal_text(n: int) -> Seq<char> {
    padded(n, 0)
}

proof fn lemma_digits_len(n: nat)
    requires
        n <= u64::MAX,
    ensures
        1 <= digits(n).len() <= 20,
{
    reveal_with_fuel(digits, 21);
}

fn push_digits(out: &mut String, n: u64) -> (len: usize)
    ensures
        final(out)@ == old(out)@ + digits(n as nat),
        len == digits(n as nat).len(),
    decreases n,
{
    proof {
        lemma_digits_len(n as nat);
    }
    let mut len: usize = 0;
    if n >= 10 {
        len = push_digits(out, n / 10);
    }
    let d: u8 = (n % 10) as u8;
    out.push((48u8 + d) as char);
    assert(out@ =~= old(out)@ + digits(n as nat));
    len + 1
}

/// A number in decimal, filled with zeros behind the sign up to `width` characters.
pub fn pad_decimal(n: i64, width: usize) -> (r: String)
    ensures
        r@ == padded(n as int, width as int),
{
    let mut body: String = String::new();
    let mag: u64 = if n < 0 { (-(n as i128)) as u64 } else { n as u64 };
    let len: usize = push_digits(&mut body, mag);
    assert(body@ =~= digits(magnitude(n as int)));
    let mut r: String = String::new();
    let mut used: usize = len;
    if n < 0 {
        proof {
            lemma_digits_len(mag as nat);
        }
        r.push('-');
        used = len + 1;
    }
    let ghost head = r@;
    let ghost start = used as int;
    while used < width
        invariant
            start <= used,
            used == start || used <= width,
            r@ == head + zeros(used - start),
        decreases width - used,
    {
        r.push('0');
        used += 1;
        assert(head + zeros(used - start) =~= (head + zeros(used - start - 1)).push('0'));
    }
    vstd::string::StringExecFns::append(&mut r, body.as_str());
    assert(r@ =~= padded(n as int, width as int));
    r
}

/// A number in decimal.
pub fn decimal(n: i64) -> (r: String)
    ensures
        r@ == decimal_text(n as int),
{
    pad_decimal(n, 0)
}

/// A number in decimal.
pub fn decimal_u64(n: u64) -> (r: String)
    ensures
        r@ == decimal_text(n as int),
{
    let mut r: String = String::new();
    push_digits(&mut r, n);
    proof {
        lemma_digits_len(n as nat);
    }
    assert(r@ =~= decimal_text(n as int));
    r
}

/// The character is a decimal digit.
pub open spec fn is_digit(c: char) -> bool {
    '0' <= c && c <= '9'
}

/// Every character is a decimal digit.
pub open spec fn all_digits(s: Seq<char>) -> bool {
    forall|i: int| 0 <= i < s.len() ==> is_digit(#[trigger] s[i])
}

/// The number that a row of decimal digits writes.
pub open spec fn digits_value(s: Seq<char>) -> nat
    decreases s.len(),
{
    if s.len() == 0 {
        0
    } else {
        (10 * digits_value(s.drop_last()) + (s.last() as int - 48)) as nat
    }
}

/// The number that a text writes: an optional sign before at least one digit.
pub open spec fn written_number(s: Seq<char>) -> Option<int> {
    let signed = s.len() > 0 && (s[0] == '-' || s[0] == '+');
    let body = if signed { s.skip(1) } else { s };
    if body.len() == 0 || !all_digits(body) {
        None
    } else if signed && s[0] == '-' {
        Some(-(digits_value(body) as int))
    } else {
        Some(digits_value(body) as int)
    }
}

/// The number that a text writes, where it lies in `lo..=hi`.
pub open spec fn number_within(s: Seq<char>, lo: int, hi: int) -> Option<int> {
    match written_number(s) {
        Some(v) => if lo <= v <= hi { Some(v) } else { None },
        None => None,
    }
}

proof fn lemma_value_grows(s: Seq<char>, i: int)
    requires
        0 <= i <= s.len(),
        all_digits(s),
    ensures
        digits_value(s.take(i)) <= digits_value(s),
    decreases s.len() - i,
{
    if i < s.len() {
        lemma_value_grows(s, i + 1);
        assert(s.take(i + 1).drop_last() =~= s.take(i));
        assert(is_digit(s[i]));
        assert(s.take(i + 1).last() == s[i]);
    } else {
        assert(s.take(i) =~= s);
    }
}

fn only_digits(chars: &Vec<char>, start: usize) -> (b: bool)
    requires
        start <= chars@.len(),
    ensures
        b == all_digits(chars@.skip(start as int)),
{
    let mut i: usize = start;
    while i < chars.len()
        invariant
            start <= i <= chars@.len(),
            forall|j: int| start <= j < i ==> is_digit(#[trigger] chars@[j]),
        decreases chars@.len() - i,
    {
        let c = chars[i];
        if !(c >= '0' && c <= '9') {
            assert(!is_digit(chars@.skip(start as int)[i - start]));
            return false;
        }
        i += 1;
    }
    true
}

/// Reads a number of the range `lo..=hi`.
pub fn parse_within(text: &str, lo: i128, hi: i128) -> (r: Option<i128>)
    requires
        -0x1_0000_0000_0000_0000 <= lo,
        hi <= 0x1_0000_0000_0000_0000,
    ensures
        match r {
            Some(v) => number_within(text@, lo as int, hi as int) == Some(v as int),
            None => number_within(text@, lo as int, hi as int) is None,
        },
{
    let chars = chars_of(text);
    let n = chars.len();
    let negative = n > 0 && chars[0] == '-';
    let signed = negative || (n > 0 && chars[0] == '+');
    let start: usize = if signed { 1 } else { 0 };
    let ghost body = text@.skip(start as int);
    assert(!signed ==> body =~= text@);
    if start == n || !only_digits(&chars, start) {
        return None;
    }
    let mut value: i128 = 0;
    let mut i: usize = start;
    while i < n
        invariant
            start <= i <= n,
            n == chars@.len(),
            chars@ == text@,
            body == text@.skip(start as int),
            all_digits(body),
            written_number(text@) == Some(if negative { -(digits_value(body) as int) } else { digits_value(body) as int }),
            value == digits_value(body.take(i - start)),
            0 <= value <= 0x1_0000_0000_0000_0000,
            -0x1_0000_0000_0000_0000 <= lo,
            hi <= 0x1_0000_0000_0000_0000,
        decreases n - i,
    {
        let c = chars[i];
        assert(0 <= i - start < body.len());
        assert(body[i - start] == chars@[i as int]);
        assert(is_digit(body[i - start]));
        let d: u32 = c as u32 - 48;
        value = value * 10 + d as i128;
        proof {
            assert(body.take(i + 1 - start).drop_last() =~= body.take(i - start));
            assert(body.take(i + 1 - start).last() == c);
        }
        if value > 0x1_0000_0000_0000_0000 {
            proof {
                lemma_value_grows(body, i + 1 - start);
            }
            return None;
        }
        i += 1;
    }
    assert(body.take(n - start) =~= body);
    let v: i128 = if negative { -value } else { value };
    if lo <= v && v <= hi {
        Some(v)
    } else {
        None
    }
}

/// Reads an `i32`.
pub fn parse_i32(text: &str) -> (r: Option<i32>)
    ensures
        match r {
            Some(v) => number_within(text@, i32::MIN as int, i32::MAX as int) == Some(v as int),
            None => number_within(text@, i32::MIN as int, i32::MAX as int) is None,
        },
{
    match parse_within(text, i32::MIN as i128, i32::MAX as i128) {
        Some(v) => Some(v as i32),
        None => None,
    }
}

/// Reads an `i64`.
pub fn parse_i64(text: &str) -> (r: Option<i64>)
    ensures
        match r {
            Some(v) => number_within(text@, i64::MIN as int, i64::MAX as int) == Some(v as int),
            None => number_within(text@, i64::MIN as int, i64::MAX as int) is None,
        },
{
    match parse_within(text, i64::MIN as i128, i64::MAX as i128) {
        Some(v) => Some(v as i64),
        None => None,
    }
}

/// The number that a text writes without a minus sign, where it fits 64 bits.
pub open spec fn unsigned_number(s: Seq<char>) -> Option<int> {
    if s.len() > 0 && s[0] == '-' { None } else { number_within(s, 0, u64::MAX as int) }
}

/// Reads a `u64`.
pub fn parse_u64(text: &str) -> (r: Option<u64>)
    ensures
        match r {
            Some(v) => unsigned_number(text@) == Some(v as int),
            None => unsigned_number(text@) is None,
        },
{
    let chars = chars_of(text);
    if chars.len() > 0 && chars[0] == '-' {
        return None;
    }
    match parse_within(text, 0, u64::MAX as i128) {
        Some(v) => Some(v as u64),
        None => None,
    }
}

/// A number in decimal, filled with zeros in front up to `width` characters.
pub fn pad_decimal_u64(n: u64, width: usize) -> (r: String)
    ensures
        r@ == padded(n as int, width as int),
{
    let mut body: String = String::new();
    let len: usize = push_digits(&mut body, n);
    assert(body@ =~= digits(n as nat));
    let mut r: String = String::new();
    let mut used: usize = len;
    while used < width
        invariant
            len <= used,
            used == len || used <= width,
            r@ == zeros(used - len),
        decreases width - used,
    {
        r.push('0');
        used += 1;
        assert(zeros(used - len) =~= zeros(used - len - 1).push('0'));
    }
    vstd::string::StringExecFns::append(&mut r, body.as_str());
    assert(r@ =~= padded(n as int, width as int));
    r
}

proof fn lemma_value_push(s: Seq<char>, c: char)
    ensures
        digits_value(s.push(c)) == (10 * digits_value(s) + (c as int - 48)) as nat,
{
    assert(s.push(c).drop_last() =~= s);
}

proof fn lemma_digits_back(n: nat)
    ensures
        all_digits(digits(n)),
        digits(n).len() > 0,
        digits_value(digits(n)) == n,
    decreases n,
{
    if n < 10 {
        assert(digits(n) =~= Seq::<char>::empty().push(digit_char(n as int)));
        lemma_value_push(Seq::<char>::empty(), digit_char(n as int));
    } else {
        lemma_digits_back(n / 10);
        lemma_value_push(digits(n / 10), digit_char((n % 10) as int));
    }
}

proof fn lemma_leading_zeros(k: nat, s: Seq<char>)
    requires
        all_digits(s),
    ensures
        all_digits(zeros(k as int) + s),
        digits_value(zeros(k as int) + s) == digits_value(s),
    decreases s.len(), k,
{
    let z = zeros(k as int);
    if s.len() == 0 {
        assert(z + s =~= z);
        if k > 0 {
            assert(z.drop_last() =~= zeros(k - 1));
            lemma_leading_zeros((k - 1) as nat, s);
            assert(zeros(k - 1) + s =~= zeros(k - 1));
        }
    } else {
        assert((z + s).drop_last() =~= z + s.drop_last());
        assert forall|i: int| 0 <= i < s.drop_last().len() implies is_digit(#[trigger] s.drop_last()[i]) by {
            assert(is_digit(s[i]));
        }
        lemma_leading_zeros(k, s.drop_last());
    }
}

/// A number written in decimal, filled up or not, reads back as itself.
pub proof fn padded_reads_back(n: int, width: int)
    ensures
        written_number(padded(n, width)) == Some(n),
{
    let body = digits(magnitude(n));
    lemma_digits_back(magnitude(n));
    if n < 0 {
        let k = width - 1 - body.len();
        lemma_leading_zeros(if k > 0 { k as nat } else { 0 }, body);
        assert(zeros(k) =~= zeros(if k > 0 { k } else { 0 }));
        assert(padded(n, width).skip(1) =~= zeros(k) + body);
    } else {
        let k = width - body.len();
        lemma_leading_zeros(if k > 0 { k as nat } else { 0 }, body);
        assert(zeros(k) =~= zeros(if k > 0 { k } else { 0 }));
        assert(padded(n, width) =~= zeros(k) + body);
        assert(is_digit((zeros(k) + body)[0]));
    }
}

/// A number that is not negative has no minus sign.
pub proof fn padded_has_no_sign(n: int, width: int)
    requires
        n >= 0,
    ensures
        padded(n, width).len() > 0,
        !padded(n, width).contains('-'),
        padded(n, width)[0] != '-',
{
    let body = digits(magnitude(n));
    lemma_digits_back(magnitude(n));
    let k = width - body.len();
    assert forall|i: int| 0 <= i < padded(n, width).len() implies #[trigger] padded(n, width)[i] != '-' by {
        let filled = if k > 0 { k } else { 0 };
        if i < filled {
            assert(padded(n, width)[i] == '0');
        } else {
            assert(padded(n, width)[i] == body[i - filled]);
            assert(is_digit(body[i - filled]));
        }
    }
}

/// A decimal number holds no separator.
pub proof fn padded_has_no_colon(n: int, width: int)
    ensures
        !padded(n, width).contains(':'),
{
    let body = digits(magnitude(n));
    lemma_digits_back(magnitude(n));
    let k = if n < 0 { width - 1 - body.len() } else { width - body.len() };
    assert forall|i: int| 0 <= i < padded(n, width).len() implies #[trigger] padded(n, width)[i] != ':' by {
        let off: int = if n < 0 { 1 } else { 0 };
        let j = i - off - zeros(k).len();
        if j >= 0 {
            assert(padded(n, width)[i] == body[j]);
            assert(is_digit(body[j]));
        }
    }
}

/// The index of the first occurrence of a character at or after `from`.
pub fn find_char(chars: &Vec<char>, from: usize, c: char) -> (r: Option<usize>)
    requires
        from <= chars@.len(),
    ensures
        match r {
            Some(i) => from <= i < chars@.len() && chars@[i as int] == c && !chars@.subrange(from as int, i as int).contains(c),
            None => !chars@.skip(from as int).contains(c),
        },
{
    let mut i: usize = from;
    while i < chars.len()
        invariant
            from <= i <= chars@.len(),
            forall|j: int| from <= j < i ==> #[trigger] chars@[j] != c,
        decreases chars@.len() - i,
    {
        if chars[i] == c {
            return Some(i);
        }
        i += 1;
    }
    None
}

/// The text cut at the first `n - 1` occurrences of the separator.
pub open spec fn cut(s: Seq<char>, n: nat, sep: char) -> Seq<Seq<char>>
    decreases n,
{
    if n == 0 {
        Seq::empty()
    } else if n == 1 || !s.contains(sep) {
        seq![s]
    } else {
        let i = s.index_of_first(sep)->0;
        seq![s.take(i)] + cut(s.skip(i + 1), (n - 1) as nat, sep)
    }
}

proof fn lemma_first_occurrence(s: Seq<char>, sep: char, i: int)
    requires
        0 <= i < s.len(),
        s[i] == sep,
        !s.take(i).contains(sep),
    ensures
        s.contains(sep),
        s.index_of_first(sep) == Some(i),
{
    s.index_of_first_ensures(sep);
    let j = s.index_of_first(sep)->0;
    if j < i {
        assert(s.take(i)[j] == sep);
    }
}

/// Cuts the text at the first `n - 1` occurrences of the separator.
pub fn splitn(text: &str, n: usize, sep: char) -> (r: Vec<String>)
    ensures
        r.deep_view() == cut(text@, n as nat, sep),
{
    let chars = chars_of(text);
    let mut r: Vec<String> = Vec::new();
    if n == 0 {
        assert(r.deep_view() =~= cut(text@, n as nat, sep));
        return r;
    }
    let mut from: usize = 0;
    let mut left: usize = n;
    assert(chars@.skip(0) =~= text@);
    assert(r.deep_view() + cut(chars@.skip(from as int), left as nat, sep) =~= cut(text@, n as nat, sep));
    while left > 1
        invariant
            1 <= left <= n,
            from <= chars@.len(),
            chars@ == text@,
            r.deep_view() + cut(chars@.skip(from as int), left as nat, sep) == cut(text@, n as nat, sep),
        decreases left,
    {
        let ghost rest = chars@.skip(from as int);
        match find_char(&chars, from, sep) {
            Some(i) => {
                proof {
                    assert(rest.take(i - from) =~= chars@.subrange(from as int, i as int));
                    lemma_first_occurrence(rest, sep, i - from);
                    assert(rest.skip(i - from + 1) =~= chars@.skip(i + 1));
                }
                let ghost before = r.deep_view();
                r.push(text_of(&chars, from, i));
                assert(r.deep_view() =~= before.push(rest.take(i - from)));
                assert(r.deep_view() + cut(chars@.skip(i + 1), (left - 1) as nat, sep)
                    =~= before + (seq![rest.take(i - from)] + cut(chars@.skip(i + 1), (left - 1) as nat, sep)));
                assert(i < chars.len());
                from = i + 1;
                left -= 1;
            },
            None => {
                let ghost before = r.deep_view();
                r.push(text_of(&chars, from, chars.len()));
                assert(chars@.subrange(from as int, chars@.len() as int) =~= rest);
                assert(r.deep_view() =~= before + seq![rest]);
                return r;
            },
        }
    }
    let ghost before = r.deep_view();
    r.push(text_of(&chars, from, chars.len()));
    assert(chars@.subrange(from as int, chars@.len() as int) =~= chars@.skip(from as int));
    assert(r.deep_view() =~= before + seq![chars@.skip(from as int)]);
    r
}

/// Cutting undoes joining: where the first part holds no separator, it is the
/// first part of the cut and the rest is cut further.
pub proof fn cut_joined(a: Seq<char>, rest: Seq<char>, n: nat, sep: char)
    requires
        n >= 2,
        !a.contains(sep),
    ensures
        cut(a + seq![sep] + rest, n, sep) == seq![a] + cut(rest, (n - 1) as nat, sep),
{
    let s = a + seq![sep] + rest;
    assert(s.take(a.len() as int) =~= a);
    lemma_first_occurrence(s, sep, a.len() as int);
    assert(s.skip((a.len() + 1) as int) =~= rest);
}

/// The index of the last occurrence of the separator, cut in two there.
pub fn rsplit_once(text: &str, sep: char) -> (r: Option<(String, String)>)
    ensures
        match r {
            Some((a, b)) => text@ == a@ + seq![sep] + b@ && !b@.contains(sep),
            None => !text@.contains(sep),
        },
{
    let chars = chars_of(text);
    let mut i: usize = chars.len();
    while i > 0
        invariant
            i <= chars@.len(),
            chars@ == text@,
            forall|j: int| i <= j < chars@.len() ==> #[trigger] chars@[j] != sep,
        decreases i,
    {
        i -= 1;
        if chars[i] == sep {
            let a = text_of(&chars, 0, i);
            let b = text_of(&chars, i + 1, chars.len());
            assert(text@ =~= a@ + seq![sep] + b@);
            return Some((a, b));
        }
    }
    None
}

/// The text starts with the prefix.
pub open spec fn has_prefix(s: Seq<char>, prefix: Seq<char>) -> bool {
    prefix.len() <= s.len() && s.take(prefix.len() as int) == prefix
}

/// The text holds another one.
pub open spec fn has_text(s: Seq<char>, t: Seq<char>) -> bool {
    exists|i: int| 0 <= i <= s.len() && #[trigger] has_prefix(s.skip(i), t)
}

/// Whether the text holds another one.
pub fn contains_text(text: &str, part: &str) -> (b: bool)
    ensures
        b == has_text(text@, part@),
{
    let chars = chars_of(text);
    let n = chars.len();
    let mut i: usize = 0;
    loop
        invariant
            n == chars@.len(),
            chars@ == text@,
            i <= n,
            forall|j: int| 0 <= j < i ==> !(#[trigger] has_prefix(text@.skip(j), part@)),
        decreases n - i,
    {
        let rest = text_of(&chars, i, n);
        assert(rest@ =~= text@.skip(i as int));
        if strip_prefix(rest.as_str(), part).is_some() {
            return true;
        }
        if i == n {
            return false;
        }
        i += 1;
    }
}

/// What follows the prefix, where the text starts with it.
pub fn strip_prefix(text: &str, prefix: &str) -> (r: Option<String>)
    ensures
        r is Some == has_prefix(text@, prefix@),
        r matches Some(t) ==> t@ == text@.skip(prefix@.len() as int),
{
    let chars = chars_of(text);
    let p = chars_of(prefix);
    if p.len() > chars.len() {
        return None;
    }
    let mut i: usize = 0;
    while i < p.len()
        invariant
            i <= p@.len() <= chars@.len(),
            chars@ == text@,
            p@ == prefix@,
            forall|j: int| 0 <= j < i ==> #[trigger] chars@[j] == p@[j],
        decreases p@.len() - i,
    {
        if chars[i] != p[i] {
            assert(text@.take(prefix@.len() as int)[i as int] != prefix@[i as int]);
            return None;
        }
        i += 1;
    }
    assert(text@.take(prefix@.len() as int) =~= prefix@);
    let t = text_of(&chars, i, chars.len());
    assert(t@ =~= text@.skip(prefix@.len() as int));
    Some(t)
}

/// The text without the prefix, however often it stands at the front.
pub open spec fn without_leading(s: Seq<char>, prefix: Seq<char>) -> Seq<char>
    decreases s.len(),
{
    if prefix.len() > 0 && has_prefix(s, prefix) {
        without_leading(s.skip(prefix.len() as int), prefix)
    } else {
        s
    }
}

/// Removes the prefix from the front, however often it stands there.
pub fn trim_start_matches(text: &str, prefix: &str) -> (r: String)
    requires
        prefix@.len() > 0,
    ensures
        r@ == without_leading(text@, prefix@),
{
    let mut cur: String = text.to_owned();
    loop
        invariant
            prefix@.len() > 0,
            without_leading(cur@, prefix@) == without_leading(text@, prefix@),
        decreases cur@.len(),
    {
        match strip_prefix(cur.as_str(), prefix) {
            Some(rest) => {
                cur = rest;
            },
            None => {
                return cur;
            },
        }
    }
}

/// The characters that Unicode counts as white space.
pub open spec fn is_space(c: char) -> bool {
    let u = c as int;
    ||| 0x9 <= u <= 0xd
    ||| u == 0x20
    ||| u == 0x85
    ||| u == 0xa0
    ||| u == 0x1680
    ||| 0x2000 <= u <= 0x200a
    ||| u == 0x2028
    ||| u == 0x2029
    ||| u == 0x202f
    ||| u == 0x205f
    ||| u == 0x3000
}

fn space(c: char) -> (b: bool)
    ensures
        b == is_space(c),
{
    let u: u32 = c as u32;
    (0x9 <= u && u <= 0xd) || u == 0x20 || u == 0x85 || u == 0xa0 || u == 0x1680 || (0x2000 <= u && u <= 0x200a)
        || u == 0x2028 || u == 0x2029 || u == 0x202f || u == 0x205f || u == 0x3000
}

/// `t` is the text without white space at either end.
pub open spec fn is_trimmed(s: Seq<char>, t: Seq<char>) -> bool {
    exists|i: int, j: int|
        0 <= i <= j <= s.len() && t == #[trigger] s.subrange(i, j)
            && (forall|k: int| 0 <= k < i ==> is_space(#[trigger] s[k]))
            && (forall|k: int| j <= k < s.len() ==> is_space(#[trigger] s[k]))
            && (t.len() > 0 ==> !is_space(t[0]) && !is_space(t.last()))
}

/// Removes white space at both ends.
pub fn trim(text: &str) -> (r: String)
    ensures
        is_trimmed(text@, r@),
{
    let chars = chars_of(text);
    let mut i: usize = 0;
    while i < chars.len() && space(chars[i])
        invariant
            i <= chars@.len(),
            forall|k: int| 0 <= k < i ==> is_space(#[trigger] chars@[k]),
        decreases chars@.len() - i,
    {
        i += 1;
    }
    let mut j: usize = chars.len();
    while j > i && space(chars[j - 1])
        invariant
            i <= j <= chars@.len(),
            forall|k: int| j <= k < chars@.len() ==> is_space(#[trigger] chars@[k]),
        decreases j,
    {
        j -= 1;
    }
    let r = text_of(&chars, i, j);
    assert(r@ == text@.subrange(i as int, j as int));
    r
}

/// What follows the last separator; the whole text where there is none.
pub open spec fn last_part(s: Seq<char>, sep: char) -> Seq<char>
    decreases s.len(),
{
    if s.len() == 0 || s.last() == sep {
        Seq::empty()
    } else {
        last_part(s.drop_last(), sep).push(s.last())
    }
}

/// The last part of a joined text is what was joined on.
pub proof fn last_part_joined(a: Seq<char>, b: Seq<char>, sep: char)
    requires
        !b.contains(sep),
    ensures
        last_part(a + seq![sep] + b, sep) == b,
    decreases b.len(),
{
    let s = a + seq![sep] + b;
    if b.len() == 0 {
        assert(s.last() == sep);
    } else {
        assert(s.last() == b.last());
        assert(b.contains(b.last()));
        assert(s.drop_last() =~= a + seq![sep] + b.drop_last());
        assert forall|i: int| 0 <= i < b.drop_last().len() implies b.drop_last()[i] != sep by {
            assert(b.contains(b[i]));
        }
        last_part_joined(a, b.drop_last(), sep);
        assert(b =~= b.drop_last().push(b.last()));
    }
}

/// A text without separator is its own last part.
pub proof fn whole_is_last_part(s: Seq<char>, sep: char)
    requires
        !s.contains(sep),
    ensures
        last_part(s, sep) == s,
    decreases s.len(),
{
    if s.len() > 0 {
        assert(s.contains(s.last()));
        assert forall|i: int| 0 <= i < s.drop_last().len() implies s.drop_last()[i] != sep by {
            assert(s.contains(s[i]));
        }
        whole_is_last_part(s.drop_last(), sep);
        assert(s =~= s.drop_last().push(s.last()));
    }
}

/// Numbers are written in base ten, the highest digit first and without leading zeros; a
/// negative number is its magnitude behind a minus sign. Padding puts zeros between the
/// sign and the digits up to the width.
pub proof fn numbers_are_written_in_base_ten(n: nat, d: int, width: int)
    requires
        0 <= d < 10,
    ensures
        decimal_text(d) == seq![digit_char(d)],
        n > 0 ==> decimal_text(10 * n + d) == decimal_text(n as int).push(digit_char(d)),
        n > 0 ==> decimal_text(-(n as int)) == seq!['-'] + decimal_text(n as int),
        digit_char(0) == '0' && digit_char(9) == '9' && digit_char(d) as int == '0' as int + d,
        padded(n as int, width).len() >= width,
        padded(n as int, width).len() > width ==> padded(n as int, width) == decimal_text(n as int),
        padded(n as int, width).subrange(
            padded(n as int, width).len() - decimal_text(n as int).len(),
            padded(n as int, width).len() as int,
        ) == decimal_text(n as int),
        forall|i: int|
            0 <= i < padded(n as int, width).len() - decimal_text(n as int).len() ==> #[trigger] padded(n as int, width)[i]
                == '0',
{
    lemma_plain(n);
    lemma_plain(d as nat);
    let m = (10 * n + d) as nat;
    lemma_plain(m);
    if n > 0 {
        assert(m / 10 == n && m % 10 == d);
        assert(digits(m) =~= digits(n).push(digit_char(d)));
        assert(decimal_text(-(n as int)) =~= seq!['-'] + digits(n));
    }
    let body = digits(n);
    let whole = padded(n as int, width);
    assert(whole.subrange(whole.len() - body.len(), whole.len() as int) =~= body);
    if whole.len() > width {
        assert(whole =~= body);
    }
}

proof fn lemma_plain(n: nat)
    ensures
        decimal_text(n as int) == digits(n),
        digits(n).len() > 0,
{
    reveal_with_fuel(digits, 2);
    assert(decimal_text(n as int) =~= digits(n));
}

/// What is dropped from the front of a text is the prefix, again and again: a text that
/// starts otherwise stays as it is, and one more prefix in front makes no difference.
pub proof fn leading_prefixes_are_dropped(s: Seq<char>, prefix: Seq<char>)
    requires
        prefix.len() > 0,
    ensures
        without_leading(prefix + s, prefix) == without_leading(s, prefix),
        (s.len() < prefix.len() || exists|i: int| 0 <= i < prefix.len() && s[i] != #[trigger] prefix[i])
            ==> without_leading(s, prefix) == s,
{
    let whole = prefix + s;
    assert(whole.take(prefix.len() as int) =~= prefix);
    assert(whole.skip(prefix.len() as int) =~= s);
    if s.len() >= prefix.len() && has_prefix(s, prefix) {
        assert forall|i: int| 0 <= i < prefix.len() implies s[i] == #[trigger] prefix[i] by {
            assert(s.take(prefix.len() as int)[i] == s[i]);
        }
    }
}

/// White space around a text is dropped, and only that.
pub proof fn outer_space_is_dropped(a: Seq<char>, t: Seq<char>, b: Seq<char>, r: Seq<char>)
    requires
        forall|i: int| 0 <= i < a.len() ==> is_space(#[trigger] a[i]),
        forall|i: int| 0 <= i < b.len() ==> is_space(#[trigger] b[i]),
        t.len() > 0 ==> !is_space(t[0]) && !is_space(t.last()),
        is_trimmed(a + t + b, r),
    ensures
        r == t,
{
    let s = a + t + b;
    let (i, j) = choose|i: int, j: int|
        0 <= i <= j <= s.len() && r == #[trigger] s.subrange(i, j) && (forall|k: int| 0 <= k < i ==> is_space(#[trigger] s[k]))
            && (forall|k: int| j <= k < s.len() ==> is_space(#[trigger] s[k])) && (r.len() > 0 ==> !is_space(r[0])
            && !is_space(r.last()));
    if t.len() == 0 {
        assert forall|k: int| 0 <= k < s.len() implies is_space(#[trigger] s[k]) by {
            if k < a.len() {
                assert(s[k] == a[k]);
            } else {
                assert(s[k] == b[k - a.len()]);
            }
        }
        if r.len() > 0 {
            assert(r[0] == s[i]);
        }
        assert(r =~= t);
    } else {
        assert(s[a.len() as int] == t[0]);
        assert(s[a.len() + t.len() - 1] == t.last());
        assert(i <= a.len());
        assert(j >= a.len() + t.len());
        assert(r[0] == s[i]);
        if i < a.len() {
            assert(s[i] == a[i]);
        }
        assert(r.last() == s[j - 1]);
        if j > a.len() + t.len() {
            assert(s[j - 1] == b[j - 1 - a.len() - t.len()]);
        }
        assert(r =~= t);
    }
}

} // verus!
