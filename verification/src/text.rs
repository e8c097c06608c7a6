use vstd::prelude::*;

verus! {

/// The characters of a text, one by one.
pub fn chars_of(s: &str) -> (v: Vec<char>)
    ensures
        v@ == s@,
{
    let mut v: Vec<char> = Vec::new();
    for c in it: s.chars()
        invariant
            v@ == it.seq().take(it.index() as int),
            it.seq() == s@,
    {
        v.push(c);
    }
    v
}

} // verus!

verus! {

/// `String::push` of std: appends one character to the text.
#[verifier::external_body]
pub(crate) fn push_char(s: &mut String, c: char)
    ensures
        final(s)@ == old(s)@.push(c),
{
    s.push(c);
}

/// A text made of the given characters.
pub fn string_of(v: &Vec<char>) -> (s: String)
    ensures
        s@ == v@,
{
    let mut s = String::new();
    for i in 0..v.len()
        invariant
            s@ == v@.take(i as int),
    {
        push_char(&mut s, v[i]);
        assert(v@.take(i + 1) == v@.take(i as int).push(v@[i as int]));
    }
    assert(v@.take(v.len() as int) == v@);
    s
}

/// The concatenation of two texts.
pub fn concat(a: &str, b: &str) -> (s: String)
    ensures
        s@ == a@ + b@,
{
    let mut s = String::from_str(a);
    s.append(b);
    s
}

} // verus!


verus! {

/// The characters with the Unicode White_Space property, which
/// `char::is_whitespace` of std accepts.
pub open spec fn is_space(c: char) -> bool {
    let n = c as int;
    ||| 0x09 <= n <= 0x0d
    ||| n == 0x20
    ||| n == 0x85
    ||| n == 0xa0
    ||| n == 0x1680
    ||| 0x2000 <= n <= 0x200a
    ||| n == 0x2028
    ||| n == 0x2029
    ||| n == 0x202f
    ||| n == 0x205f
    ||| n == 0x3000
}

/// The text without its leading whitespace.
pub open spec fn trim_start(s: Seq<char>) -> Seq<char>
    decreases s.len(),
{
    if s.len() > 0 && is_space(s[0]) {
        trim_start(s.drop_first())
    } else {
        s
    }
}

/// The text without its trailing whitespace.
pub open spec fn trim_end(s: Seq<char>) -> Seq<char>
    decreases s.len(),
{
    if s.len() > 0 && is_space(s.last()) {
        trim_end(s.drop_last())
    } else {
        s
    }
}

/// The text without leading and trailing whitespace, as `str::trim` gives it.
pub open spec fn trim(s: Seq<char>) -> Seq<char> {
    trim_end(trim_start(s))
}

/// Whether a character is whitespace.
pub fn char_is_space(c: char) -> (r: bool)
    ensures
        r == is_space(c),
{
    let n = c as u32;
    (0x09 <= n && n <= 0x0d) || n == 0x20 || n == 0x85 || n == 0xa0 || n == 0x1680 || (0x2000
        <= n && n <= 0x200a) || n == 0x2028 || n == 0x2029 || n == 0x202f || n == 0x205f || n
        == 0x3000
}

proof fn lemma_trim_start_skip(s: Seq<char>, i: int)
    requires
        0 <= i <= s.len(),
        forall|j: int| 0 <= j < i ==> is_space(#[trigger] s[j]),
    ensures
        trim_start(s) == trim_start(s.skip(i)),
    decreases i,
{
    if i == 0 {
        assert(s.skip(0) =~= s);
    } else {
        assert(is_space(s[0]));
        assert forall|j: int| 0 <= j < i - 1 implies is_space(#[trigger] s.drop_first()[j]) by {
            assert(s.drop_first()[j] == s[j + 1]);
        }
        lemma_trim_start_skip(s.drop_first(), i - 1);
        assert(s.drop_first().skip(i - 1) =~= s.skip(i));
    }
}

proof fn lemma_trim_end_take(s: Seq<char>, i: int)
    requires
        0 <= i <= s.len(),
        forall|j: int| i <= j < s.len() ==> is_space(#[trigger] s[j]),
    ensures
        trim_end(s) == trim_end(s.take(i)),
    decreases s.len() - i,
{
    if i == s.len() {
        assert(s.take(i) =~= s);
    } else {
        assert(is_space(s.last()));
        assert forall|j: int| i <= j < s.drop_last().len() implies is_space(
            #[trigger] s.drop_last()[j],
        ) by {
            assert(s.drop_last()[j] == s[j]);
        }
        lemma_trim_end_take(s.drop_last(), i);
        assert(s.drop_last().take(i) =~= s.take(i));
    }
}

/// The characters without leading and trailing whitespace.
pub fn trim_chars(s: &Vec<char>) -> (r: Vec<char>)
    ensures
        r@ == trim(s@),
{
    let mut start: usize = 0;
    while start < s.len() && char_is_space(s[start])
        invariant
            start <= s.len(),
            forall|j: int| 0 <= j < start ==> is_space(#[trigger] s@[j]),
        decreases s.len() - start,
    {
        start = start + 1;
    }
    proof {
        lemma_trim_start_skip(s@, start as int);
    }
    let ghost t = s@.skip(start as int);
    assert(trim_start(s@) == t);
    let mut end: usize = s.len();
    while end > start && char_is_space(s[end - 1])
        invariant
            start <= end <= s.len(),
            forall|j: int| end <= j < s.len() ==> is_space(#[trigger] s@[j]),
        decreases end,
    {
        end = end - 1;
    }
    proof {
        assert forall|j: int| end - start <= j < t.len() implies is_space(#[trigger] t[j]) by {
            assert(t[j] == s@[start + j]);
        }
        lemma_trim_end_take(t, end - start);
        if end > start {
            assert(t.take(end - start).last() == s@[end - 1]);
        }
    }
    let mut r: Vec<char> = Vec::new();
    let mut k: usize = start;
    while k < end
        invariant
            start <= k <= end,
            end <= s.len(),
            r@ == s@.subrange(start as int, k as int),
        decreases end - k,
    {
        r.push(s[k]);
        k = k + 1;
    }
    assert(r@ =~= t.take(end - start));
    r
}

} // verus!

verus! {

/// Whether two character sequences are the same.
pub fn chars_eq(a: &Vec<char>, b: &Vec<char>) -> (r: bool)
    ensures
        r == (a@ == b@),
{
    if a.len() != b.len() {
        return false;
    }
    let mut i: usize = 0;
    while i < a.len()
        invariant
            a.len() == b.len(),
            i <= a.len(),
            forall|j: int| 0 <= j < i ==> a@[j] == b@[j],
        decreases a.len() - i,
    {
        if a[i] != b[i] {
            return false;
        }
        i = i + 1;
    }
    assert(a@ =~= b@);
    true
}

/// The characters from position `from` up to (not including) `to`.
pub fn slice_chars(s: &Vec<char>, from: usize, to: usize) -> (r: Vec<char>)
    requires
        from <= to <= s.len(),
    ensures
        r@ == s@.subrange(from as int, to as int),
{
    let mut r: Vec<char> = Vec::new();
    let mut k: usize = from;
    while k < to
        invariant
            from <= k <= to,
            to <= s.len(),
            r@ == s@.subrange(from as int, k as int),
        decreases to - k,
    {
        r.push(s[k]);
        k = k + 1;
    }
    r
}

/// The needle stands in the text at position `i`.
pub open spec fn occurs_at(text: Seq<char>, needle: Seq<char>, i: int) -> bool {
    0 <= i && i + needle.len() <= text.len() && text.subrange(i, i + needle.len()) == needle
}

/// The first position at or after `i` where the needle stands in the text.
pub open spec fn find_from(text: Seq<char>, needle: Seq<char>, i: int) -> Option<int>
    decreases text.len() + 1 - i,
{
    if i < 0 || i + needle.len() > text.len() {
        None
    } else if occurs_at(text, needle, i) {
        Some(i)
    } else {
        find_from(text, needle, i + 1)
    }
}

/// A position that `find_from` gives has the needle there.
pub proof fn lemma_find_bounds(text: Seq<char>, needle: Seq<char>, i: int)
    ensures
        find_from(text, needle, i) matches Some(j) ==> i <= j && j + needle.len() <= text.len()
            && occurs_at(text, needle, j),
    decreases text.len() + 1 - i,
{
    if !(i < 0 || i + needle.len() > text.len()) && !occurs_at(text, needle, i) {
        lemma_find_bounds(text, needle, i + 1);
    }
}

/// The first position where the needle stands in the text, as `str::find` gives it
/// (counted in characters).
pub open spec fn find(text: Seq<char>, needle: Seq<char>) -> Option<int> {
    find_from(text, needle, 0)
}

/// The first position where the needle stands in the text.
pub fn find_chars(text: &Vec<char>, needle: &Vec<char>) -> (r: Option<usize>)
    ensures
        match r {
            Some(i) => find(text@, needle@) == Some(i as int),
            None => find(text@, needle@) is None,
        },
{
    if needle.len() > text.len() {
        return None;
    }
    let mut i: usize = 0;
    while i <= text.len() - needle.len()
        invariant
            needle.len() <= text.len(),
            i <= text.len() - needle.len() + 1,
            find(text@, needle@) == find_from(text@, needle@, i as int),
        decreases text.len() + 1 - i,
    {
        let mut k: usize = 0;
        let mut same = true;
        while k < needle.len()
            invariant
                i + needle.len() <= text.len(),
                k <= needle.len(),
                same == (forall|j: int| 0 <= j < k ==> text@[i + j] == needle@[j]),
            decreases needle.len() - k,
        {
            if text[i + k] != needle[k] {
                same = false;
            }
            k = k + 1;
        }
        if same {
            assert(text@.subrange(i as int, i + needle.len()) =~= needle@);
            return Some(i);
        }
        assert(!occurs_at(text@, needle@, i as int)) by {
            if text@.subrange(i as int, i + needle.len()) == needle@ {
                assert forall|j: int| 0 <= j < needle.len() implies text@[i + j] == needle@[j] by {
                    assert(text@.subrange(i as int, i + needle.len())[j] == text@[i + j]);
                }
            }
        }
        i = i + 1;
    }
    None
}

} // verus!

verus! {

pub open spec fn is_digit(c: char) -> bool {
    48 <= (c as int) <= 57
}

pub open spec fn all_digits(s: Seq<char>) -> bool {
    forall|i: int| 0 <= i < s.len() ==> is_digit(#[trigger] s[i])
}

/// The number that a run of decimal digits spells.
pub open spec fn digits_value(s: Seq<char>) -> int
    decreases s.len(),
{
    if s.len() == 0 {
        0
    } else {
        digits_value(s.drop_last()) * 10 + ((s.last() as int) - 48)
    }
}

/// What `usize::from_str` of std accepts: an optional `+`, then at least one
/// decimal digit, with a value that fits.
pub open spec fn parse_usize(s: Seq<char>) -> Option<usize> {
    let body = if s.len() > 0 && s[0] == '+' {
        s.drop_first()
    } else {
        s
    };
    if body.len() > 0 && all_digits(body) && digits_value(body) <= usize::MAX {
        Some(digits_value(body) as usize)
    } else {
        None
    }
}

/// What `i64::from_str` of std accepts: an optional sign, then at least one
/// decimal digit, with a value that fits.
pub open spec fn parse_i64(s: Seq<char>) -> Option<i64> {
    let negative = s.len() > 0 && s[0] == '-';
    let body = if s.len() > 0 && (s[0] == '+' || s[0] == '-') {
        s.drop_first()
    } else {
        s
    };
    let v = if negative {
        -digits_value(body)
    } else {
        digits_value(body)
    };
    if body.len() > 0 && all_digits(body) && i64::MIN <= v <= i64::MAX {
        Some(v as i64)
    } else {
        None
    }
}

/// What `bool::from_str` of std accepts: exactly `true` or `false`.
pub open spec fn parse_bool(s: Seq<char>) -> Option<bool> {
    if s == seq!['t', 'r', 'u', 'e'] {
        Some(true)
    } else if s == seq!['f', 'a', 'l', 's', 'e'] {
        Some(false)
    } else {
        None
    }
}

proof fn lemma_digits_value_grows(s: Seq<char>, i: int, j: int)
    requires
        0 <= i <= j <= s.len(),
        all_digits(s),
    ensures
        digits_value(s.take(i)) <= digits_value(s.take(j)),
        digits_value(s.take(j)) >= 0,
    decreases j,
{
    if j > 0 {
        assert(s.take(j).drop_last() =~= s.take(j - 1));
        assert(is_digit(s[j - 1]));
        if i < j {
            lemma_digits_value_grows(s, i, j - 1);
        } else {
            lemma_digits_value_grows(s, 0, j - 1);
        }
    }
}

/// The value of a decimal digit.
fn digit_of(c: char) -> (d: u8)
    requires
        is_digit(c),
    ensures
        d as int == (c as int) - 48,
{
    match c {
        '0' => 0,
        '1' => 1,
        '2' => 2,
        '3' => 3,
        '4' => 4,
        '5' => 5,
        '6' => 6,
        '7' => 7,
        '8' => 8,
        _ => 9,
    }
}

/// The value of the digits from position `start` on, where they are all
/// digits, at least one, with a value of at most `limit`.
fn digits_at_most(s: &Vec<char>, start: usize, limit: u128) -> (r: Option<u128>)
    requires
        start <= s.len(),
        limit <= u64::MAX,
    ensures
        ({
            let body = s@.skip(start as int);
            match r {
                Some(v) => body.len() > 0 && all_digits(body) && v == digits_value(body) && v
                    <= limit,
                None => !(body.len() > 0 && all_digits(body) && digits_value(body) <= limit),
            }
        }),
{
    let ghost body = s@.skip(start as int);
    if start == s.len() {
        return None;
    }
    let mut acc: u128 = 0;
    let mut k: usize = start;
    assert(body.take(0) =~= Seq::<char>::empty());
    while k < s.len()
        invariant
            start <= k <= s.len(),
            body == s@.skip(start as int),
            all_digits(body.take(k - start)),
            acc == digits_value(body.take(k - start)),
            acc <= limit,
            limit <= u64::MAX,
        decreases s.len() - k,
    {
        let c = s[k];
        if !(c >= '0' && c <= '9') {
            assert(body[k - start] == c);
            return None;
        }
        assert(body.take(k - start + 1).drop_last() =~= body.take(k - start));
        assert(body.take(k - start + 1).last() == c);
        let d = digit_of(c);
        acc = acc * 10 + d as u128;
        assert(all_digits(body.take(k - start + 1))) by {
            assert forall|j: int| 0 <= j < k - start + 1 implies is_digit(
                #[trigger] body.take(k - start + 1)[j],
            ) by {
                if j < k - start {
                    assert(body.take(k - start + 1)[j] == body.take(k - start)[j]);
                }
            }
        }
        if acc > limit {
            proof {
                let n = body.len() as int;
                if all_digits(body) {
                    lemma_digits_value_grows(body, k - start + 1, n);
                    assert(body.take(n) =~= body);
                }
            }
            return None;
        }
        k = k + 1;
    }
    assert(body.take(k - start) =~= body);
    Some(acc)
}

/// `usize::from_str` of std.
pub fn chars_to_usize(s: &Vec<char>) -> (r: Option<usize>)
    ensures
        r == parse_usize(s@),
{
    let start: usize = if s.len() > 0 && s[0] == '+' {
        1
    } else {
        0
    };
    assert(s@.skip(start as int) == (if s@.len() > 0 && s@[0] == '+' {
        s@.drop_first()
    } else {
        s@
    }));
    match digits_at_most(s, start, usize::MAX as u128) {
        Some(v) => Some(v as usize),
        None => None,
    }
}

/// `i64::from_str` of std.
pub fn chars_to_i64(s: &Vec<char>) -> (r: Option<i64>)
    ensures
        r == parse_i64(s@),
{
    let negative = s.len() > 0 && s[0] == '-';
    let start: usize = if s.len() > 0 && (s[0] == '+' || s[0] == '-') {
        1
    } else {
        0
    };
    let ghost body = s@.skip(start as int);
    assert(body == (if s@.len() > 0 && (s@[0] == '+' || s@[0] == '-') {
        s@.drop_first()
    } else {
        s@
    }));
    if negative {
        match digits_at_most(s, start, 0x8000_0000_0000_0000) {
            Some(v) => if v == 0x8000_0000_0000_0000 {
                Some(i64::MIN)
            } else {
                Some(-(v as i64))
            },
            None => None,
        }
    } else {
        match digits_at_most(s, start, 0x7fff_ffff_ffff_ffff) {
            Some(v) => Some(v as i64),
            None => None,
        }
    }
}

/// `bool::from_str` of std.
pub fn chars_to_bool(s: &Vec<char>) -> (r: Option<bool>)
    ensures
        r == parse_bool(s@),
{
    let t = vec!['t', 'r', 'u', 'e'];
    let f = vec!['f', 'a', 'l', 's', 'e'];
    assert(t@ == seq!['t', 'r', 'u', 'e']);
    assert(f@ == seq!['f', 'a', 'l', 's', 'e']);
    if chars_eq(s, &t) {
        Some(true)
    } else if chars_eq(s, &f) {
        Some(false)
    } else {
        None
    }
}

} // verus!

verus! {

/// The first position at or after `i` that holds the character.
pub open spec fn index_of_from(s: Seq<char>, c: char, i: int) -> Option<int>
    decreases s.len() - i,
{
    if i < 0 || i >= s.len() {
        None
    } else if s[i] == c {
        Some(i)
    } else {
        index_of_from(s, c, i + 1)
    }
}

/// The first position that holds the character.
pub open spec fn index_of(s: Seq<char>, c: char) -> Option<int> {
    index_of_from(s, c, 0)
}

/// A position that `index_of_from` gives lies in the text and holds the character.
pub proof fn lemma_index_of_from(s: Seq<char>, c: char, i: int)
    ensures
        index_of_from(s, c, i) matches Some(j) ==> i <= j < s.len() && s[j] == c,
    decreases s.len() - i,
{
    if 0 <= i < s.len() && s[i] != c {
        lemma_index_of_from(s, c, i + 1);
    }
}

/// The first position at or after `from` that holds the character.
pub fn index_of_char(s: &Vec<char>, c: char, from: usize) -> (r: Option<usize>)
    requires
        from <= s.len(),
    ensures
        match r {
            Some(j) => index_of_from(s@, c, from as int) == Some(j as int),
            None => index_of_from(s@, c, from as int) is None,
        },
{
    let mut j = from;
    while j < s.len()
        invariant
            from <= j <= s.len(),
            index_of_from(s@, c, from as int) == index_of_from(s@, c, j as int),
        decreases s.len() - j,
    {
        if s[j] == c {
            return Some(j);
        }
        j = j + 1;
    }
    None
}

} // verus!

verus! {

/// Whether the characters spell the text.
pub fn chars_are(s: &Vec<char>, text: &str) -> (r: bool)
    ensures
        r == (s@ == text@),
{
    chars_eq(s, &chars_of(text))
}

/// A text in lower case, as `str::to_lowercase` of std gives it.
pub uninterp spec fn lowercase(s: Seq<char>) -> Seq<char>;

/// Every character of the text is ASCII.
pub open spec fn is_ascii_text(s: Seq<char>) -> bool {
    forall|i: int| 0 <= i < s.len() ==> (#[trigger] s[i] as int) < 128
}

/// A character with `A` to `Z` made lower case.
pub open spec fn ascii_lower_char(c: char) -> char {
    if 65 <= (c as int) <= 90 {
        ((c as int) + 32) as char
    } else {
        c
    }
}

/// A text with `A` to `Z` made lower case, and every other character kept.
pub open spec fn ascii_lower(s: Seq<char>) -> Seq<char> {
    s.map_values(|c: char| ascii_lower_char(c))
}

/// `str::to_lowercase` of std: the text with each character replaced by its
/// Unicode lowercase mapping, which for ASCII text maps `A` to `Z` onto `a`
/// to `z` and keeps every other character. Beyond ASCII the mapping is not
/// stated here; the result is a function of the text alone.
#[verifier::external_body]
pub(crate) fn to_lowercase(s: &str) -> (r: String)
    ensures
        r@ == lowercase(s@),
        is_ascii_text(s@) ==> r@ == ascii_lower(s@),
{
    s.to_lowercase()
}

} // verus!

verus! {

/// The decimal digit for a number below ten.
pub open spec fn digit_char(d: int) -> char {
    if d == 0 {
        '0'
    } else if d == 1 {
        '1'
    } else if d == 2 {
        '2'
    } else if d == 3 {
        '3'
    } else if d == 4 {
        '4'
    } else if d == 5 {
        '5'
    } else if d == 6 {
        '6'
    } else if d == 7 {
        '7'
    } else if d == 8 {
        '8'
    } else {
        '9'
    }
}

/// The decimal digits of a natural number, without leading zeros.
pub open spec fn decimal(n: nat) -> Seq<char>
    decreases n,
{
    if n < 10 {
        seq![digit_char(n as int)]
    } else {
        decimal(n / 10).push(digit_char((n % 10) as int))
    }
}

/// The decimal text of an integer, with a `-` in front of a negative one.
pub open spec fn int_text(i: int) -> Seq<char> {
    if i < 0 {
        seq!['-'] + decimal((-i) as nat)
    } else {
        decimal(i as nat)
    }
}

/// The digit for a number below ten has that number's place after `0`.
proof fn lemma_digit_char(d: int)
    requires
        0 <= d < 10,
    ensures
        digit_char(d) as int == d + 48,
{
    assert('0' as int == 48 && '1' as int == 49 && '2' as int == 50 && '3' as int == 51);
    assert('4' as int == 52 && '5' as int == 53 && '6' as int == 54 && '7' as int == 55);
    assert('8' as int == 56 && '9' as int == 57);
}

/// The decimal digits of a number are digits, and spell the number.
pub proof fn lemma_decimal_spells(n: nat)
    ensures
        decimal(n).len() > 0,
        all_digits(decimal(n)),
        digits_value(decimal(n)) == n,
    decreases n,
{
    let d = decimal(n);
    lemma_digit_char((n % 10) as int);
    if n < 10 {
        assert(n % 10 == n);
        assert(d.drop_last() =~= Seq::<char>::empty());
        assert(d.last() == digit_char(n as int));
        assert(digits_value(d) == digits_value(d.drop_last()) * 10 + ((d.last() as int) - 48));
    } else {
        lemma_decimal_spells(n / 10);
        assert(d.drop_last() =~= decimal(n / 10));
        assert(forall|i: int| 0 <= i < d.len() - 1 ==> d[i] == decimal(n / 10)[i]);
        assert(d.last() == digit_char((n % 10) as int));
        assert(digits_value(d) == digits_value(decimal(n / 10)) * 10 + ((d.last() as int) - 48));
        assert((n / 10) * 10 + n % 10 == n) by (nonlinear_arith);
    }
}

fn digit_char_of(d: u64) -> (c: char)
    requires
        d < 10,
    ensures
        c == digit_char(d as int),
{
    if d == 0 {
        '0'
    } else if d == 1 {
        '1'
    } else if d == 2 {
        '2'
    } else if d == 3 {
        '3'
    } else if d == 4 {
        '4'
    } else if d == 5 {
        '5'
    } else if d == 6 {
        '6'
    } else if d == 7 {
        '7'
    } else if d == 8 {
        '8'
    } else {
        '9'
    }
}

/// The decimal digits of a number.
pub fn decimal_chars(n: u64) -> (r: Vec<char>)
    ensures
        r@ == decimal(n as nat),
    decreases n,
{
    if n < 10 {
        let r = vec![digit_char_of(n)];
        assert(r@ =~= decimal(n as nat));
        r
    } else {
        let mut r = decimal_chars(n / 10);
        r.push(digit_char_of(n % 10));
        r
    }
}

/// The decimal text of an unsigned number, as `to_string` of std gives it.
pub fn usize_to_text(n: usize) -> (r: String)
    ensures
        r@ == decimal(n as nat),
{
    string_of(&decimal_chars(n as u64))
}

/// The decimal text of a signed number, as `to_string` of std gives it.
pub fn i64_to_text(i: i64) -> (r: String)
    ensures
        r@ == int_text(i as int),
{
    if i < 0 {
        let m: u64 = if i == i64::MIN {
            0x8000_0000_0000_0000
        } else {
            (-i) as u64
        };
        let mut v = vec!['-'];
        let d = decimal_chars(m);
        let mut k: usize = 0;
        while k < d.len()
            invariant
                k <= d.len(),
                v@ == seq!['-'] + d@.take(k as int),
            decreases d.len() - k,
        {
            v.push(d[k]);
            assert(d@.take(k + 1) == d@.take(k as int).push(d@[k as int]));
            k = k + 1;
        }
        assert(d@.take(d.len() as int) =~= d@);
        string_of(&v)
    } else {
        string_of(&decimal_chars(i as u64))
    }
}

} // verus!

verus! {

/// A line without the `\r` of a `\r\n` ending.
pub open spec fn strip_cr(t: Seq<char>) -> Seq<char> {
    if t.len() > 0 && t.last() == '\r' {
        t.drop_last()
    } else {
        t
    }
}

/// The lines of a text, as `str::lines` of std gives them: split at `\n`,
/// with a `\r` right before the `\n` removed, and no empty line after a
/// final `\n`.
pub open spec fn text_lines(s: Seq<char>) -> Seq<Seq<char>>
    decreases s.len(),
{
    if s.len() == 0 {
        Seq::empty()
    } else {
        match index_of(s, '\n') {
            None => seq![s],
            Some(j) => {
                proof {
                    lemma_index_of_from(s, '\n', 0);
                }
                seq![strip_cr(s.take(j))] + text_lines(s.skip(j + 1))
            },
        }
    }
}

/// Searching a suffix is searching the whole from the suffix's start.
pub proof fn lemma_index_of_skip(s: Seq<char>, c: char, p: int, k: int)
    requires
        0 <= p <= s.len(),
        0 <= k,
    ensures
        index_of_from(s, c, p + k) == match index_of_from(s.skip(p), c, k) {
            Some(j) => Some(j + p),
            None => None::<int>,
        },
    decreases s.len() - p - k,
{
    if p + k < s.len() {
        assert(s.skip(p)[k] == s[p + k]);
        if s[p + k] != c {
            lemma_index_of_skip(s, c, p, k + 1);
        }
    }
}

/// The characters of a line without the `\r` of a `\r\n` ending.
fn strip_cr_chars(t: Vec<char>) -> (r: Vec<char>)
    ensures
        r@ == strip_cr(t@),
{
    let mut t = t;
    if t.len() > 0 && t[t.len() - 1] == '\r' {
        t.pop();
    }
    t
}

/// The texts of character vectors.
pub open spec fn texts(v: Seq<Vec<char>>) -> Seq<Seq<char>> {
    v.map_values(|l: Vec<char>| l@)
}

/// The lines of a text.
pub fn lines_of(s: &Vec<char>) -> (r: Vec<Vec<char>>)
    ensures
        texts(r@) == text_lines(s@),
{
    let mut r: Vec<Vec<char>> = Vec::new();
    let mut p: usize = 0;
    assert(s@.skip(0) =~= s@);
    while p < s.len()
        invariant
            p <= s.len(),
            text_lines(s@) == texts(r@) + text_lines(s@.skip(p as int)),
        decreases s.len() - p,
    {
        let ghost rest = s@.skip(p as int);
        proof {
            lemma_index_of_skip(s@, '\n', p as int, 0);
        }
        match index_of_char(s, '\n', p) {
            None => {
                let line = slice_chars(s, p, s.len());
                assert(line@ =~= rest);
                let ghost before = texts(r@);
                r.push(line);
                assert(texts(r@) =~= before.push(rest));
                assert(s@.skip(s.len() as int) =~= Seq::<char>::empty());
                p = s.len();
            },
            Some(j) => {
                proof {
                    lemma_index_of_from(s@, '\n', p as int);
                }
                let line = strip_cr_chars(slice_chars(s, p, j));
                assert(s@.subrange(p as int, j as int) =~= rest.take(j - p));
                assert(rest.skip(j - p + 1) =~= s@.skip(j + 1));
                let ghost before = texts(r@);
                r.push(line);
                assert(texts(r@) =~= before.push(strip_cr(rest.take(j - p))));
                p = j + 1;
            },
        }
    }
    assert(s@.skip(p as int) =~= Seq::<char>::empty());
    assert(texts(r@) + Seq::<Seq<char>>::empty() =~= texts(r@));
    r
}

} // verus!

verus! {

/// Whether a character has the Unicode Uppercase property, as
/// `char::is_uppercase` of std tells.
pub uninterp spec fn is_upper(c: char) -> bool;

/// `char::is_uppercase` of std. Which characters are upper case is not
/// stated here; the answer is a function of the character alone.
#[verifier::external_body]
pub(crate) fn char_is_uppercase(c: char) -> (r: bool)
    ensures
        r == is_upper(c),
{
    c.is_uppercase()
}

} // verus!

verus! {

/// The number of bytes of a character in UTF-8.
pub open spec fn utf8_width(c: char) -> int {
    let n = c as u32;
    if n < 0x80 {
        1
    } else if n < 0x800 {
        2
    } else if n < 0x10000 {
        3
    } else {
        4
    }
}

/// The number of bytes of a text in UTF-8, which `str::len` of std gives.
pub open spec fn utf8_len(s: Seq<char>) -> int
    decreases s.len(),
{
    if s.len() == 0 {
        0
    } else {
        utf8_len(s.drop_last()) + utf8_width(s.last())
    }
}

/// The number of bytes of the characters in UTF-8.
pub fn utf8_len_of(s: &Vec<char>) -> (n: u128)
    ensures
        n == utf8_len(s@),
{
    let mut n: u128 = 0;
    for i in 0..s.len()
        invariant
            n == utf8_len(s@.take(i as int)),
            n <= 4 * i,
    {
        assert(s@.take(i + 1).drop_last() =~= s@.take(i as int));
        let c = s[i] as u32;
        let w: u128 = if c < 0x80 {
            1
        } else if c < 0x800 {
            2
        } else if c < 0x10000 {
            3
        } else {
            4
        };
        n = n + w;
    }
    assert(s@.take(s.len() as int) =~= s@);
    n
}

} // verus!

verus! {

/// How often a character occurs in a text.
pub open spec fn char_count(s: Seq<char>, c: char) -> int
    decreases s.len(),
{
    if s.len() == 0 {
        0
    } else {
        char_count(s.drop_last(), c) + if s.last() == c {
            1int
        } else {
            0int
        }
    }
}

/// Counting over two texts one after the other adds their counts.
pub proof fn lemma_char_count_concat(a: Seq<char>, b: Seq<char>, c: char)
    ensures
        char_count(a + b, c) == char_count(a, c) + char_count(b, c),
    decreases b.len(),
{
    if b.len() == 0 {
        assert(a + b =~= a);
    } else {
        lemma_char_count_concat(a, b.drop_last(), c);
        assert((a + b).drop_last() =~= a + b.drop_last());
    }
}

/// How often a character occurs in a text.
pub fn count_char(s: &Vec<char>, c: char) -> (n: usize)
    ensures
        n == char_count(s@, c),
        n <= s.len(),
{
    let mut n: usize = 0;
    for i in 0..s.len()
        invariant
            n == char_count(s@.take(i as int), c),
            n <= i,
    {
        assert(s@.take(i + 1).drop_last() =~= s@.take(i as int));
        if s[i] == c {
            n = n + 1;
        }
    }
    assert(s@.take(s.len() as int) =~= s@);
    n
}

} // verus!

verus! {

/// The text with each occurrence of the pattern, from left to right and
/// without overlap, replaced, as `str::replace` of std gives it.
pub open spec fn replace_all(s: Seq<char>, pat: Seq<char>, rep: Seq<char>) -> Seq<char>
    decreases s.len(),
{
    if pat.len() == 0 {
        s
    } else {
        match find(s, pat) {
            None => s,
            Some(i) => {
                proof {
                    lemma_find_bounds(s, pat, 0);
                }
                s.take(i) + rep + replace_all(s.skip(i + pat.len()), pat, rep)
            },
        }
    }
}

/// The text with each occurrence of the pattern replaced.
pub fn replace_chars(s: &Vec<char>, pat: &Vec<char>, rep: &Vec<char>) -> (r: Vec<char>)
    requires
        pat.len() > 0,
    ensures
        r@ == replace_all(s@, pat@, rep@),
{
    let mut out: Vec<char> = Vec::new();
    let mut p: usize = 0;
    assert(s@.skip(0) =~= s@);
    while p <= s.len()
        invariant
            p <= s.len(),
            pat.len() > 0,
            replace_all(s@, pat@, rep@) == out@ + replace_all(s@.skip(p as int), pat@, rep@),
        decreases s.len() + 1 - p,
    {
        let rest = slice_chars(s, p, s.len());
        assert(rest@ =~= s@.skip(p as int));
        match find_chars(&rest, pat) {
            None => {
                let ghost before = out@;
                let mut k: usize = 0;
                while k < rest.len()
                    invariant
                        k <= rest.len(),
                        out@ == before + rest@.take(k as int),
                    decreases rest.len() - k,
                {
                    out.push(rest[k]);
                    assert(rest@.take(k + 1) =~= rest@.take(k as int).push(rest@[k as int]));
                    k = k + 1;
                }
                assert(rest@.take(rest.len() as int) =~= rest@);
                return out;
            },
            Some(i) => {
                proof {
                    lemma_find_bounds(rest@, pat@, 0);
                }
                let ghost before = out@;
                let mut k: usize = 0;
                while k < i
                    invariant
                        k <= i,
                        i <= rest.len(),
                        out@ == before + rest@.take(k as int),
                    decreases i - k,
                {
                    out.push(rest[k]);
                    assert(rest@.take(k + 1) =~= rest@.take(k as int).push(rest@[k as int]));
                    k = k + 1;
                }
                let ghost mid = out@;
                let mut k: usize = 0;
                while k < rep.len()
                    invariant
                        k <= rep.len(),
                        out@ == mid + rep@.take(k as int),
                    decreases rep.len() - k,
                {
                    out.push(rep[k]);
                    assert(rep@.take(k + 1) =~= rep@.take(k as int).push(rep@[k as int]));
                    k = k + 1;
                }
                assert(rep@.take(rep.len() as int) =~= rep@);
                assert(rest@.skip(i + pat@.len()) =~= s@.skip(p + i + pat@.len()));
                assert(out@ =~= before + (rest@.take(i as int) + rep@));
                p = p + i + pat.len();
            },
        }
    }
    out
}

} // verus!
