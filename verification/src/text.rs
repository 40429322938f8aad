//! Character-level text primitives shared by the parsers of this crate.
//!
//! Every executable function works on a `Vec<char>` and is specified by a
//! spec function on `Seq<char>`, the view of `str` and `String`.

use vstd::prelude::*;

verus! {

/// `String::push` appends one character to the end of the string.
pub assume_specification[ std::string::String::push ](s: &mut std::string::String, c: char)
    ensures
        final(s)@ == old(s)@.push(c),
;

/// The characters with the Unicode property `White_Space`, which is what
/// `char::is_whitespace` and `str::trim` go by.
pub open spec fn is_whitespace(c: char) -> bool {
    let n = c as u32;
    ||| 0x09 <= n <= 0x0D
    ||| n == 0x20
    ||| n == 0x85
    ||| n == 0xA0
    ||| n == 0x1680
    ||| 0x2000 <= n <= 0x200A
    ||| n == 0x2028
    ||| n == 0x2029
    ||| n == 0x202F
    ||| n == 0x205F
    ||| n == 0x3000
}

/// The ten ASCII digits.
pub open spec fn is_digit(c: char) -> bool {
    '0' <= c <= '9'
}

/// The code of `c` with the ASCII letters folded to upper case.
pub open spec fn fold_case(c: char) -> u32 {
    if 'a' <= c <= 'z' {
        (c as u32 - 32) as u32
    } else {
        c as u32
    }
}

/// Equality of two texts up to the case of ASCII letters.
pub open spec fn same_ignoring_case(a: Seq<char>, b: Seq<char>) -> bool {
    &&& a.len() == b.len()
    &&& forall|i: int| 0 <= i < a.len() ==> fold_case(#[trigger] a[i]) == fold_case(b[i])
}

/// `s` without its leading whitespace.
pub open spec fn skip_whitespace(s: Seq<char>) -> Seq<char>
    decreases s.len(),
{
    if s.len() > 0 && is_whitespace(s[0]) {
        skip_whitespace(s.skip(1))
    } else {
        s
    }
}

/// `s` without its trailing whitespace.
pub open spec fn drop_whitespace(s: Seq<char>) -> Seq<char>
    decreases s.len(),
{
    if s.len() > 0 && is_whitespace(s[s.len() - 1]) {
        drop_whitespace(s.take(s.len() - 1))
    } else {
        s
    }
}

/// `s` without leading and trailing whitespace.
pub open spec fn trimmed(s: Seq<char>) -> Seq<char> {
    drop_whitespace(skip_whitespace(s))
}

/// `needle` occurs in `hay` starting at index `at`.
pub open spec fn occurs_at(hay: Seq<char>, needle: Seq<char>, at: int) -> bool {
    &&& 0 <= at
    &&& at + needle.len() <= hay.len()
    &&& hay.subrange(at, at + needle.len()) == needle
}

/// The least index at or after `from` at which `needle` occurs in `hay`.
pub open spec fn find_from(hay: Seq<char>, needle: Seq<char>, from: int) -> Option<int>
    decreases hay.len() - from + 1,
{
    if from < 0 || from + needle.len() > hay.len() {
        None
    } else if occurs_at(hay, needle, from) {
        Some(from)
    } else {
        find_from(hay, needle, from + 1)
    }
}

/// The index of the first occurrence of `needle` in `hay`.
pub open spec fn find(hay: Seq<char>, needle: Seq<char>) -> Option<int> {
    find_from(hay, needle, 0)
}

/// `s` without one layer of surrounding quotes: a text of two or more
/// characters that begins and ends with the same quote character, single or
/// double, loses both; any other text is left as it is.
pub open spec fn unquoted(s: Seq<char>) -> Seq<char> {
    if s.len() >= 2 && (s[0] == '\'' || s[0] == '"') && s[s.len() - 1] == s[0] {
        s.subrange(1, s.len() - 1)
    } else {
        s
    }
}

/// The value of a decimal digit; 0 for any other character.
pub open spec fn digit_value(c: char) -> nat {
    if is_digit(c) {
        (c as u32 - '0' as u32) as nat
    } else {
        0
    }
}

/// The value of a text of decimal digits.
pub open spec fn digits_value(s: Seq<char>) -> nat
    decreases s.len(),
{
    if s.len() == 0 {
        0
    } else {
        digits_value(s.take(s.len() - 1)) * 10 + digit_value(s[s.len() - 1])
    }
}

/// Every character of `s` is a digit.
pub open spec fn all_digits(s: Seq<char>) -> bool {
    forall|i: int| 0 <= i < s.len() ==> is_digit(#[trigger] s[i])
}

/// `s` begins with `+` or `-`.
pub open spec fn has_sign(s: Seq<char>) -> bool {
    s.len() > 0 && (s[0] == '+' || s[0] == '-')
}

/// `s` without its leading `+` or `-`, if it has one.
pub open spec fn without_sign(s: Seq<char>) -> Seq<char> {
    if has_sign(s) {
        s.skip(1)
    } else {
        s
    }
}

/// The integer that `s` denotes: an optional sign followed by one or more
/// decimal digits and nothing else, whose value fits in 64 bits. This is the
/// grammar of `str::parse::<i64>`.
pub open spec fn parse_int(s: Seq<char>) -> Option<int> {
    let body = without_sign(s);
    let magnitude = digits_value(body) as int;
    let value = if has_sign(s) && s[0] == '-' {
        -magnitude
    } else {
        magnitude
    };
    if body.len() > 0 && all_digits(body) && i64::MIN <= value <= i64::MAX {
        Some(value)
    } else {
        None
    }
}

/// The number of digits at the start of `s`.
pub open spec fn leading_digits(s: Seq<char>) -> nat
    decreases s.len(),
{
    if s.len() > 0 && is_digit(s[0]) {
        1 + leading_digits(s.skip(1))
    } else {
        0
    }
}

/// An exponent after its marker: an optional sign and one or more digits.
pub open spec fn is_exponent_text(s: Seq<char>) -> bool {
    let body = without_sign(s);
    body.len() > 0 && all_digits(body)
}

/// A decimal number: digits with an optional fraction part after a `.`, at
/// least one digit in all, then an optional exponent after `e` or `E`.
pub open spec fn is_decimal_text(s: Seq<char>) -> bool {
    let whole = leading_digits(s);
    let after_whole = s.skip(whole as int);
    let has_point = after_whole.len() > 0 && after_whole[0] == '.';
    let fraction = if has_point {
        leading_digits(after_whole.skip(1))
    } else {
        0
    };
    let rest = if has_point {
        after_whole.skip(1 + fraction as int)
    } else {
        after_whole
    };
    &&& whole + fraction > 0
    &&& rest.len() > 0 ==> (rest[0] == 'e' || rest[0] == 'E') && is_exponent_text(rest.skip(1))
}

/// The texts that `str::parse` accepts as a floating-point number: an
/// optional sign, then `inf`, `infinity` or `nan` in any case, or a decimal
/// number.
pub open spec fn is_float_text(s: Seq<char>) -> bool {
    let body = without_sign(s);
    ||| same_ignoring_case(body, seq!['i', 'n', 'f'])
    ||| same_ignoring_case(body, seq!['i', 'n', 'f', 'i', 'n', 'i', 't', 'y'])
    ||| same_ignoring_case(body, seq!['n', 'a', 'n'])
    ||| is_decimal_text(body)
}

/// The pieces of `s` between the occurrences of `sep`, in order. A text
/// without `sep` is one piece; the empty text is one empty piece.
pub open spec fn split(s: Seq<char>, sep: char) -> Seq<Seq<char>>
    decreases s.len(),
{
    if s.len() == 0 {
        seq![Seq::<char>::empty()]
    } else {
        let head = split(s.take(s.len() - 1), sep);
        if s[s.len() - 1] == sep {
            head.push(Seq::<char>::empty())
        } else {
            head.update(head.len() - 1, head[head.len() - 1].push(s[s.len() - 1]))
        }
    }
}

/// The texts that a list of strings holds, in order.
pub open spec fn texts(v: Seq<String>) -> Seq<Seq<char>> {
    Seq::new(v.len(), |i: int| v[i]@)
}

/// The characters of a name: any but whitespace and the opening bracket.
pub open spec fn is_name_char(c: char) -> bool {
    !is_whitespace(c) && c != '('
}

/// The number of name characters at the start of `s`.
pub open spec fn name_len(s: Seq<char>) -> nat
    decreases s.len(),
{
    if s.len() > 0 && is_name_char(s[0]) {
        1 + name_len(s.skip(1))
    } else {
        0
    }
}

/// The name at the start of `s`, after whitespace: the longest run of name
/// characters there, which may be empty.
pub open spec fn first_name(s: Seq<char>) -> Seq<char> {
    let t = skip_whitespace(s);
    t.take(name_len(t) as int)
}

/// What follows the name at the start of `s`.
pub open spec fn after_name(s: Seq<char>) -> Seq<char> {
    let t = skip_whitespace(s);
    t.skip(name_len(t) as int)
}

/// The pieces of `s` between its whitespace characters, in order; between
/// two whitespace characters that follow each other stands an empty piece.
pub open spec fn fields(s: Seq<char>) -> Seq<Seq<char>>
    decreases s.len(),
{
    if s.len() == 0 {
        seq![Seq::<char>::empty()]
    } else {
        let head = fields(s.take(s.len() - 1));
        if is_whitespace(s[s.len() - 1]) {
            head.push(Seq::<char>::empty())
        } else {
            head.update(head.len() - 1, head[head.len() - 1].push(s[s.len() - 1]))
        }
    }
}

/// The pieces that are not empty, in order.
pub open spec fn non_empty(pieces: Seq<Seq<char>>) -> Seq<Seq<char>>
    decreases pieces.len(),
{
    if pieces.len() == 0 {
        pieces
    } else {
        let front = non_empty(pieces.take(pieces.len() - 1));
        if pieces[pieces.len() - 1].len() > 0 {
            front.push(pieces[pieces.len() - 1])
        } else {
            front
        }
    }
}

/// The words of `s`: its longest runs of characters that are not whitespace.
pub open spec fn words(s: Seq<char>) -> Seq<Seq<char>> {
    non_empty(fields(s))
}

/// The keyword `word` stands in `s` at index `at`, in any case, with
/// whitespace or an end of the text on both sides.
pub open spec fn keyword_at(s: Seq<char>, word: Seq<char>, at: int) -> bool {
    &&& 0 <= at
    &&& at + word.len() <= s.len()
    &&& same_ignoring_case(s.subrange(at, at + word.len()), word)
    &&& at == 0 || is_whitespace(s[at - 1])
    &&& at + word.len() == s.len() || is_whitespace(s[at + word.len()])
}

/// The least index at or after `from` at which the keyword `word` stands.
pub open spec fn find_keyword_from(s: Seq<char>, word: Seq<char>, from: int) -> Option<int>
    decreases s.len() - from + 1,
{
    if from < 0 || from + word.len() > s.len() {
        None
    } else if keyword_at(s, word, from) {
        Some(from)
    } else {
        find_keyword_from(s, word, from + 1)
    }
}

/// The index at which the keyword `word` first stands in `s`.
pub open spec fn find_keyword(s: Seq<char>, word: Seq<char>) -> Option<int> {
    find_keyword_from(s, word, 0)
}

/// The value of the first digits of a text is at most the value of all.
pub proof fn lemma_digits_value_prefix(s: Seq<char>, k: int)
    requires
        0 <= k <= s.len(),
    ensures
        digits_value(s.take(k)) <= digits_value(s),
    decreases s.len() - k,
{
    if k < s.len() {
        lemma_digits_value_prefix(s, k + 1);
        assert(s.take(k + 1).take(k) == s.take(k));
        assert(digits_value(s.take(k + 1)) >= digits_value(s.take(k)) * 10) by {
            assert(s.take(k + 1).take(s.take(k + 1).len() - 1) == s.take(k));
        }
    } else {
        assert(s.take(k) == s);
    }
}

/// Whether `c` is whitespace.
pub fn char_is_whitespace(c: char) -> (b: bool)
    ensures
        b == is_whitespace(c),
{
    let n: u32 = c as u32;
    (0x09 <= n && n <= 0x0D) || n == 0x20 || n == 0x85 || n == 0xA0 || n == 0x1680 || (0x2000
        <= n && n <= 0x200A) || n == 0x2028 || n == 0x2029 || n == 0x202F || n == 0x205F || n
        == 0x3000
}

/// Whether `c` is one of the ten ASCII digits.
pub fn char_is_digit(c: char) -> (b: bool)
    ensures
        b == is_digit(c),
{
    '0' <= c && c <= '9'
}

/// The code of `c` with the ASCII letters folded to upper case.
pub fn char_fold_case(c: char) -> (n: u32)
    ensures
        n == fold_case(c),
{
    if 'a' <= c && c <= 'z' {
        c as u32 - 32
    } else {
        c as u32
    }
}

/// The characters of `s`, in order.
pub fn str_chars(s: &str) -> (v: Vec<char>)
    ensures
        v@ == s@,
{
    let mut v: Vec<char> = Vec::new();
    for c in it: s.chars()
        invariant
            v@ == it.seq().take(it.index() as int),
            it.seq() == s@,
    {
        v.push(c);
    }
    v
}

/// The string made of the characters of `v`, in order.
pub fn chars_to_string(v: &Vec<char>) -> (s: String)
    ensures
        s@ == v@,
{
    let mut s = String::new();
    let mut i: usize = 0;
    while i < v.len()
        invariant
            i <= v.len(),
            s@ == v@.take(i as int),
        decreases v.len() - i,
    {
        s.push(v[i]);
        i += 1;
    }
    s
}

/// A copy of the characters of `v` from index `from` up to `to`.
pub fn copy_range(v: &Vec<char>, from: usize, to: usize) -> (r: Vec<char>)
    requires
        from <= to <= v.len(),
    ensures
        r@ == v@.subrange(from as int, to as int),
{
    let mut r: Vec<char> = Vec::new();
    let mut i: usize = from;
    while i < to
        invariant
            from <= i <= to <= v.len(),
            r@ == v@.subrange(from as int, i as int),
        decreases to - i,
    {
        r.push(v[i]);
        i += 1;
    }
    r
}

/// Whether two texts are equal up to the case of ASCII letters.
pub fn equals_ignoring_case(a: &Vec<char>, b: &Vec<char>) -> (r: bool)
    ensures
        r == same_ignoring_case(a@, b@),
{
    if a.len() != b.len() {
        return false;
    }
    let mut i: usize = 0;
    while i < a.len()
        invariant
            i <= a.len(),
            a.len() == b.len(),
            forall|k: int| 0 <= k < i ==> fold_case(#[trigger] a@[k]) == fold_case(b@[k]),
        decreases a.len() - i,
    {
        if char_fold_case(a[i]) != char_fold_case(b[i]) {
            return false;
        }
        i += 1;
    }
    true
}

/// Whether two texts are equal.
pub fn equal_chars(a: &Vec<char>, b: &Vec<char>) -> (r: bool)
    ensures
        r == (a@ == b@),
{
    if a.len() != b.len() {
        return false;
    }
    let mut i: usize = 0;
    while i < a.len()
        invariant
            i <= a.len(),
            a.len() == b.len(),
            forall|k: int| 0 <= k < i ==> a@[k] == b@[k],
        decreases a.len() - i,
    {
        if a[i] != b[i] {
            return false;
        }
        i += 1;
    }
    assert(a@ =~= b@);
    true
}

/// `v` without leading and trailing whitespace.
pub fn trim(v: &Vec<char>) -> (r: Vec<char>)
    ensures
        r@ == trimmed(v@),
{
    let n = v.len();
    let mut i: usize = 0;
    assert(v@.skip(0) == v@);
    while i < n && char_is_whitespace(v[i])
        invariant
            i <= n,
            n == v.len(),
            skip_whitespace(v@) == skip_whitespace(v@.skip(i as int)),
        decreases n - i,
    {
        proof {
            assert(v@.skip(i as int).skip(1) == v@.skip(i + 1));
        }
        i += 1;
    }
    let mut j: usize = n;
    proof {
        assert(v@.subrange(i as int, n as int) == v@.skip(i as int));
    }
    while j > i && char_is_whitespace(v[j - 1])
        invariant
            i <= j <= n,
            n == v.len(),
            drop_whitespace(v@.skip(i as int)) == drop_whitespace(
                v@.subrange(i as int, j as int),
            ),
        decreases j,
    {
        proof {
            let cur = v@.subrange(i as int, j as int);
            assert(cur.take(cur.len() - 1) == v@.subrange(i as int, j - 1));
        }
        j -= 1;
    }
    copy_range(v, i, j)
}

/// Whether `needle` occurs in `hay` at index `at`.
pub fn is_at(hay: &Vec<char>, needle: &Vec<char>, at: usize) -> (r: bool)
    ensures
        r == occurs_at(hay@, needle@, at as int),
{
    if needle.len() > hay.len() || at > hay.len() - needle.len() {
        return false;
    }
    let mut k: usize = 0;
    while k < needle.len()
        invariant
            k <= needle.len(),
            at + needle.len() <= hay.len(),
            forall|m: int| 0 <= m < k ==> hay@[at + m] == needle@[m],
        decreases needle.len() - k,
    {
        if hay[at + k] != needle[k] {
            assert(hay@.subrange(at as int, at + needle.len())[k as int] != needle@[k as int]);
            return false;
        }
        k += 1;
    }
    assert(hay@.subrange(at as int, at + needle.len()) =~= needle@);
    true
}

/// The index of the first occurrence of `needle` in `hay` at or after `from`.
pub fn find_in_from(hay: &Vec<char>, needle: &Vec<char>, from: usize) -> (r: Option<usize>)
    ensures
        match r {
            Some(i) => find_from(hay@, needle@, from as int) == Some(i as int) && occurs_at(
                hay@,
                needle@,
                i as int,
            ),
            None => find_from(hay@, needle@, from as int) is None,
        },
{
    if needle.len() > hay.len() || from > hay.len() - needle.len() {
        return None;
    }
    let last = hay.len() - needle.len();
    let mut i: usize = from;
    while i < last
        invariant
            from <= i <= last,
            last == hay.len() - needle.len(),
            find_from(hay@, needle@, from as int) == find_from(hay@, needle@, i as int),
        decreases last - i,
    {
        if is_at(hay, needle, i) {
            return Some(i);
        }
        i += 1;
    }
    if is_at(hay, needle, i) {
        Some(i)
    } else {
        assert(find_from(hay@, needle@, i + 1) is None);
        None
    }
}

/// The index of the first occurrence of `needle` in `hay`.
pub fn find_in(hay: &Vec<char>, needle: &Vec<char>) -> (r: Option<usize>)
    ensures
        match r {
            Some(i) => find(hay@, needle@) == Some(i as int) && occurs_at(hay@, needle@, i as int),
            None => find(hay@, needle@) is None,
        },
{
    find_in_from(hay, needle, 0)
}

/// `v` without one layer of surrounding quotes.
pub fn unquote(v: &Vec<char>) -> (r: Vec<char>)
    ensures
        r@ == unquoted(v@),
{
    let n = v.len();
    if n >= 2 && (v[0] == '\'' || v[0] == '"') && v[n - 1] == v[0] {
        copy_range(v, 1, n - 1)
    } else {
        let r = copy_range(v, 0, n);
        assert(v@.subrange(0, n as int) == v@);
        r
    }
}

/// Whether every character of `v` from index `from` on is a digit.
fn digits_from(v: &Vec<char>, from: usize) -> (r: bool)
    requires
        from <= v.len(),
    ensures
        r == all_digits(v@.skip(from as int)),
{
    let mut i: usize = from;
    while i < v.len()
        invariant
            from <= i <= v.len(),
            forall|k: int| from <= k < i ==> is_digit(#[trigger] v@[k]),
        decreases v.len() - i,
    {
        if !char_is_digit(v[i]) {
            assert(!is_digit(v@.skip(from as int)[i - from]));
            return false;
        }
        i += 1;
    }
    assert forall|k: int| 0 <= k < v@.skip(from as int).len() implies is_digit(
        #[trigger] v@.skip(from as int)[k],
    ) by {
        assert(v@.skip(from as int)[k] == v@[from + k]);
    }
    true
}

/// The number of digits of `v` that start at index `from`.
fn count_digits(v: &Vec<char>, from: usize) -> (n: usize)
    requires
        from <= v.len(),
    ensures
        n == leading_digits(v@.skip(from as int)),
        from + n <= v.len(),
{
    let mut i: usize = from;
    while i < v.len() && char_is_digit(v[i])
        invariant
            from <= i <= v.len(),
            leading_digits(v@.skip(from as int)) == (i - from) + leading_digits(
                v@.skip(i as int),
            ),
        decreases v.len() - i,
    {
        proof {
            assert(v@.skip(i as int).skip(1) == v@.skip(i + 1));
        }
        i += 1;
    }
    i - from
}

/// The integer that `v` denotes, if it denotes one that fits in 64 bits.
pub fn parse_i64(v: &Vec<char>) -> (r: Option<i64>)
    ensures
        match r {
            Some(n) => parse_int(v@) == Some(n as int),
            None => parse_int(v@) is None,
        },
{
    let n = v.len();
    let signed = n > 0 && (v[0] == '+' || v[0] == '-');
    let negative = signed && v[0] == '-';
    let start: usize = if signed {
        1
    } else {
        0
    };
    let ghost body = v@.skip(start as int);
    assert(body == without_sign(v@));
    if start == n || !digits_from(v, start) {
        return None;
    }
    // The magnitude of the least 64-bit integer is the largest that is needed.
    let limit: u64 = 0x8000_0000_0000_0000;
    let mut acc: u64 = 0;
    let mut i: usize = start;
    while i < n
        invariant
            start <= i <= n,
            n == v.len(),
            body == v@.skip(start as int),
            body == without_sign(v@),
            all_digits(body),
            acc == digits_value(body.take(i - start)),
            acc <= limit,
            limit == 0x8000_0000_0000_0000,
        decreases n - i,
    {
        let c = v[i];
        assert(is_digit(body[i - start]));
        let d: u64 = (c as u32 - '0' as u32) as u64;
        proof {
            let next = body.take(i - start + 1);
            assert(next.take(next.len() - 1) == body.take(i - start));
            assert(next[next.len() - 1] == c);
            assert(digit_value(c) == d);
            assert(digits_value(next) == acc * 10 + d);
            lemma_digits_value_prefix(body, i - start + 1);
        }
        if acc > (limit - d) / 10 {
            assert(digits_value(body) > limit);
            return None;
        }
        acc = acc * 10 + d;
        i += 1;
    }
    assert(body.take(n - start) == body);
    if negative {
        if acc == limit {
            Some(i64::MIN)
        } else {
            Some(-(acc as i64))
        }
    } else {
        if acc == limit {
            None
        } else {
            Some(acc as i64)
        }
    }
}

fn is_exponent(v: &Vec<char>, from: usize) -> (r: bool)
    requires
        from <= v.len(),
    ensures
        r == is_exponent_text(v@.skip(from as int)),
{
    let n = v.len();
    let signed = from < n && (v[from] == '+' || v[from] == '-');
    let start: usize = if signed {
        from + 1
    } else {
        from
    };
    proof {
        let s = v@.skip(from as int);
        if signed {
            assert(s.skip(1) == v@.skip(start as int));
        }
        assert(without_sign(s) == v@.skip(start as int));
    }
    start < n && digits_from(v, start)
}

fn is_decimal(v: &Vec<char>, from: usize) -> (r: bool)
    requires
        from <= v.len(),
    ensures
        r == is_decimal_text(v@.skip(from as int)),
{
    let n = v.len();
    let ghost s = v@.skip(from as int);
    let whole = count_digits(v, from);
    let p = from + whole;
    assert(s.skip(whole as int) == v@.skip(p as int));
    let has_point = p < n && v[p] == '.';
    let mut fraction: usize = 0;
    let mut q = p;
    if has_point {
        fraction = count_digits(v, p + 1);
        q = p + 1 + fraction;
        assert(v@.skip(p as int).skip(1) == v@.skip(p + 1));
        assert(v@.skip(p as int).skip(1 + fraction) == v@.skip(q as int));
    }
    if whole + fraction == 0 {
        return false;
    }
    if q == n {
        return true;
    }
    assert(v@.skip(q as int).skip(1) == v@.skip(q + 1));
    (v[q] == 'e' || v[q] == 'E') && is_exponent(v, q + 1)
}

/// Whether `v` is written as a floating-point number.
pub fn is_float(v: &Vec<char>) -> (r: bool)
    ensures
        r == is_float_text(v@),
{
    let n = v.len();
    let signed = n > 0 && (v[0] == '+' || v[0] == '-');
    let start: usize = if signed {
        1
    } else {
        0
    };
    let body = copy_range(v, start, n);
    assert(body@ == without_sign(v@));
    let inf: Vec<char> = vec!['i', 'n', 'f'];
    let infinity: Vec<char> = vec!['i', 'n', 'f', 'i', 'n', 'i', 't', 'y'];
    let nan: Vec<char> = vec!['n', 'a', 'n'];
    assert(inf@ =~= seq!['i', 'n', 'f']);
    assert(infinity@ =~= seq!['i', 'n', 'f', 'i', 'n', 'i', 't', 'y']);
    assert(nan@ =~= seq!['n', 'a', 'n']);
    if equals_ignoring_case(&body, &inf) || equals_ignoring_case(&body, &infinity)
        || equals_ignoring_case(&body, &nan) {
        return true;
    }
    let r = is_decimal(&body, 0);
    assert(body@.skip(0) == body@);
    r
}

/// The pieces of `v` between the occurrences of `sep`.
pub fn split_on(v: &Vec<char>, sep: char) -> (r: Vec<Vec<char>>)
    ensures
        r@.len() == split(v@, sep).len(),
        forall|i: int| 0 <= i < r@.len() ==> (#[trigger] r@[i])@ == split(v@, sep)[i],
{
    let mut out: Vec<Vec<char>> = Vec::new();
    let mut cur: Vec<char> = Vec::new();
    let mut i: usize = 0;
    while i < v.len()
        invariant
            i <= v.len(),
            out@.len() + 1 == split(v@.take(i as int), sep).len(),
            forall|k: int|
                0 <= k < out@.len() ==> (#[trigger] out@[k])@ == split(v@.take(i as int), sep)[k],
            cur@ == split(v@.take(i as int), sep)[out@.len() as int],
        decreases v.len() - i,
    {
        let c = v[i];
        proof {
            let next = v@.take(i + 1);
            assert(next.take(next.len() - 1) == v@.take(i as int));
            assert(next[next.len() - 1] == c);
        }
        if c == sep {
            out.push(cur);
            cur = Vec::new();
        } else {
            cur.push(c);
        }
        i += 1;
    }
    assert(v@.take(v.len() as int) == v@);
    out.push(cur);
    out
}

/// Whether two strings hold the same characters.
pub fn str_eq(a: &str, b: &str) -> (r: bool)
    ensures
        r == (a@ == b@),
{
    let x = str_chars(a);
    let y = str_chars(b);
    equal_chars(&x, &y)
}

/// A copy of a list of strings.
pub fn clone_texts(v: &Vec<String>) -> (r: Vec<String>)
    ensures
        texts(r@) == texts(v@),
{
    let mut r: Vec<String> = Vec::new();
    let mut i: usize = 0;
    while i < v.len()
        invariant
            i <= v.len(),
            r@.len() == i,
            forall|k: int| 0 <= k < i ==> (#[trigger] r@[k])@ == v@[k]@,
        decreases v.len() - i,
    {
        r.push(v[i].clone());
        i += 1;
    }
    assert(texts(r@) =~= texts(v@));
    r
}

/// `v` without its leading whitespace.
pub fn skip_blank(v: &Vec<char>) -> (r: Vec<char>)
    ensures
        r@ == skip_whitespace(v@),
{
    let n = v.len();
    let mut i: usize = 0;
    assert(v@.skip(0) == v@);
    while i < n && char_is_whitespace(v[i])
        invariant
            i <= n,
            n == v.len(),
            skip_whitespace(v@) == skip_whitespace(v@.skip(i as int)),
        decreases n - i,
    {
        proof {
            assert(v@.skip(i as int).skip(1) == v@.skip(i + 1));
        }
        i += 1;
    }
    copy_range(v, i, n)
}

/// Splits `v` into the name at its start and what follows it.
pub fn take_name(v: &Vec<char>) -> (r: (Vec<char>, Vec<char>))
    ensures
        r.0@ == first_name(v@),
        r.1@ == after_name(v@),
{
    let n = v.len();
    let mut i: usize = 0;
    assert(v@.skip(0) == v@);
    while i < n && char_is_whitespace(v[i])
        invariant
            i <= n,
            n == v.len(),
            skip_whitespace(v@) == skip_whitespace(v@.skip(i as int)),
        decreases n - i,
    {
        proof {
            assert(v@.skip(i as int).skip(1) == v@.skip(i + 1));
        }
        i += 1;
    }
    let ghost t = v@.skip(i as int);
    assert(t == skip_whitespace(v@));
    let mut j: usize = i;
    while j < n && !char_is_whitespace(v[j]) && v[j] != '('
        invariant
            i <= j <= n,
            n == v.len(),
            t == v@.skip(i as int),
            name_len(t) == (j - i) + name_len(v@.skip(j as int)),
        decreases n - j,
    {
        proof {
            assert(v@.skip(j as int).skip(1) == v@.skip(j + 1));
        }
        j += 1;
    }
    let name = copy_range(v, i, j);
    let rest = copy_range(v, j, n);
    assert(name@ =~= t.take(name_len(t) as int));
    assert(rest@ =~= t.skip(name_len(t) as int));
    (name, rest)
}

/// The words of `v`.
pub fn split_words(v: &Vec<char>) -> (r: Vec<Vec<char>>)
    ensures
        r@.len() == words(v@).len(),
        forall|i: int| 0 <= i < r@.len() ==> (#[trigger] r@[i])@ == words(v@)[i],
{
    let mut out: Vec<Vec<char>> = Vec::new();
    let mut cur: Vec<char> = Vec::new();
    let mut i: usize = 0;
    proof {
        assert(fields(v@.take(0)) =~= seq![Seq::<char>::empty()]);
        assert(fields(v@.take(0)).take(0) =~= Seq::<Seq<char>>::empty());
    }
    while i < v.len()
        invariant
            i <= v.len(),
            fields(v@.take(i as int)).len() >= 1,
            out@.len() == non_empty(
                fields(v@.take(i as int)).take(fields(v@.take(i as int)).len() - 1),
            ).len(),
            forall|k: int|
                0 <= k < out@.len() ==> (#[trigger] out@[k])@ == non_empty(
                    fields(v@.take(i as int)).take(fields(v@.take(i as int)).len() - 1),
                )[k],
            cur@ == fields(v@.take(i as int))[fields(v@.take(i as int)).len() - 1],
        decreases v.len() - i,
    {
        let c = v[i];
        proof {
            let prev = fields(v@.take(i as int));
            let next = v@.take(i + 1);
            assert(next.take(next.len() - 1) == v@.take(i as int));
            assert(next[next.len() - 1] == c);
            let after = fields(next);
            if is_whitespace(c) {
                assert(after == prev.push(Seq::<char>::empty()));
                assert(after.take(after.len() - 1) == prev);
                assert(prev.take(prev.len() - 1) == prev.take(prev.len() - 1));
            } else {
                assert(after.take(after.len() - 1) == prev.take(prev.len() - 1));
            }
        }
        if char_is_whitespace(c) {
            if cur.len() > 0 {
                out.push(cur);
            }
            cur = Vec::new();
        } else {
            cur.push(c);
        }
        i += 1;
    }
    assert(v@.take(v.len() as int) == v@);
    proof {
        let all = fields(v@);
        assert(all.take(all.len() as int) == all);
    }
    if cur.len() > 0 {
        out.push(cur);
    }
    out
}

/// Whether the keyword `word` stands in `v` at index `at`.
fn is_keyword_at(v: &Vec<char>, word: &Vec<char>, at: usize) -> (r: bool)
    ensures
        r == keyword_at(v@, word@, at as int),
{
    if word.len() > v.len() || at > v.len() - word.len() {
        return false;
    }
    let end = at + word.len();
    if at > 0 && !char_is_whitespace(v[at - 1]) {
        return false;
    }
    if end < v.len() && !char_is_whitespace(v[end]) {
        return false;
    }
    let part = copy_range(v, at, end);
    equals_ignoring_case(&part, word)
}

/// The index at which the keyword `word` first stands in `v`.
pub fn find_keyword_in(v: &Vec<char>, word: &str) -> (r: Option<usize>)
    ensures
        match r {
            Some(i) => find_keyword(v@, word@) == Some(i as int) && i + word@.len() <= v@.len(),
            None => find_keyword(v@, word@) is None,
        },
{
    let w = str_chars(word);
    if w.len() > v.len() {
        return None;
    }
    let last = v.len() - w.len();
    let mut i: usize = 0;
    while i < last
        invariant
            i <= last,
            last == v.len() - w.len(),
            w@ == word@,
            find_keyword(v@, w@) == find_keyword_from(v@, w@, i as int),
        decreases last - i,
    {
        if is_keyword_at(v, &w, i) {
            return Some(i);
        }
        i += 1;
    }
    if is_keyword_at(v, &w, i) {
        Some(i)
    } else {
        assert(find_keyword_from(v@, w@, i + 1) is None);
        None
    }
}

} // verus!
