//! Text as a sequence of characters: comparing, joining, trimming, replacing and
//! writing numbers.
use vstd::prelude::*;

verus! {

/// `String::push`: the character becomes the last one of the text, and nothing else
/// changes.
pub assume_specification [ std::string::String::push ] (buffer: &mut std::string::String, ch: char)
    ensures
        final(buffer)@ == old(buffer)@.push(ch),
;

/// The texts that a list of strings holds.
pub open spec fn texts(list: Seq<String>) -> Seq<Seq<char>> {
    list.map_values(|item: String| item@)
}

/// The texts that a list of lists of strings holds.
pub open spec fn rows(list: Seq<Vec<String>>) -> Seq<Seq<Seq<char>>> {
    list.map_values(|row: Vec<String>| texts(row@))
}

/// The text of an optional string.
pub open spec fn maybe_text(item: Option<String>) -> Option<Seq<char>> {
    match item {
        Some(text) => Some(text@),
        None => None,
    }
}

/// The texts that a map holds.
pub open spec fn map_texts(map: Map<Seq<char>, String>) -> Map<Seq<char>, Seq<char>> {
    map.map_values(|item: String| item@)
}

/// The code points that a character can have.
pub proof fn lemma_char_range(ch: char)
    ensures
        0 <= ch as int <= 0xd7ff || 0xe000 <= ch as int <= 0x10ffff,
{
}

/// The characters of `text`, in order.
pub fn chars_of(text: &str) -> (chars: Vec<char>)
    ensures
        chars@ == text@,
{
    let mut chars: Vec<char> = Vec::new();
    for ch in it: text.chars()
        invariant
            chars@ == it.seq().take(it.index()),
    {
        chars.push(ch);
    }
    chars
}

/// The text made of the characters `from..to`.
pub fn text_between(chars: &[char], from: usize, to: usize) -> (text: String)
    requires
        from <= to <= chars@.len(),
    ensures
        text@ == chars@.subrange(from as int, to as int),
{
    let mut text = String::new();
    for index in from..to
        invariant
            from <= to <= chars@.len(),
            text@ == chars@.subrange(from as int, index as int),
    {
        text.push(chars[index]);
    }
    text
}

/// Whether two strings hold the same text.
pub fn same_text(left: &str, right: &str) -> (same: bool)
    ensures
        same == (left@ == right@),
{
    left.to_owned() == right.to_owned()
}

/// Whether `name` is one of `names`.
pub fn contains_text(names: &[String], name: &str) -> (found: bool)
    ensures
        found == texts(names@).contains(name@),
{
    for index in 0..names.len()
        invariant
            forall|i: int| 0 <= i < index ==> texts(names@)[i] != name@,
    {
        if same_text(names[index].as_str(), name) {
            assert(texts(names@)[index as int] == name@);
            return true;
        }
    }
    false
}

// ---- order ----

/// The order of strings: by the first character that differs, by its code point; a
/// proper prefix comes first.
pub open spec fn text_before(left: Seq<char>, right: Seq<char>) -> bool
    decreases left.len(),
{
    if right.len() == 0 {
        false
    } else if left.len() == 0 {
        true
    } else if left[0] == right[0] {
        text_before(left.drop_first(), right.drop_first())
    } else {
        (left[0] as int) < (right[0] as int)
    }
}

/// No text comes before itself.
pub proof fn lemma_text_before_irreflexive(text: Seq<char>)
    ensures
        !text_before(text, text),
    decreases text.len(),
{
    if text.len() > 0 {
        lemma_text_before_irreflexive(text.drop_first());
    }
}

/// Of two different texts, one comes before the other.
pub proof fn lemma_text_before_total(left: Seq<char>, right: Seq<char>)
    ensures
        text_before(left, right) || text_before(right, left) || left == right,
    decreases left.len(),
{
    if left.len() > 0 && right.len() > 0 {
        lemma_text_before_total(left.drop_first(), right.drop_first());
        if left.drop_first() == right.drop_first() && left[0] == right[0] {
            assert(left == seq![left[0]] + left.drop_first());
            assert(right == seq![right[0]] + right.drop_first());
        }
    } else if left.len() == 0 && right.len() == 0 {
        assert(left == right);
    }
}

/// The order of texts carries over a third text.
pub proof fn lemma_text_before_transitive(a: Seq<char>, b: Seq<char>, c: Seq<char>)
    requires
        text_before(a, b),
        text_before(b, c),
    ensures
        text_before(a, c),
    decreases a.len(),
{
    if a.len() > 0 && a[0] == b[0] && b[0] == c[0] {
        lemma_text_before_transitive(a.drop_first(), b.drop_first(), c.drop_first());
    }
}

/// Whether `left` comes before `right` in the order of strings.
pub fn is_before(left: &str, right: &str) -> (before: bool)
    ensures
        before == text_before(left@, right@),
{
    let a = chars_of(left);
    let b = chars_of(right);
    let mut index: usize = 0;
    assert(a@.skip(0) == a@ && b@.skip(0) == b@);
    while index < a.len() && index < b.len() && a[index] == b[index]
        invariant
            index <= a.len(),
            index <= b.len(),
            text_before(a@, b@) == text_before(a@.skip(index as int), b@.skip(index as int)),
        decreases a.len() - index,
    {
        assert(a@.skip(index as int).drop_first() == a@.skip(index + 1));
        assert(b@.skip(index as int).drop_first() == b@.skip(index + 1));
        index = index + 1;
    }
    if index >= b.len() {
        false
    } else if index >= a.len() {
        true
    } else {
        a[index] < b[index]
    }
}

// ---- joining ----

/// The parts one after another, with `separator` between two neighbours.
pub open spec fn joined(parts: Seq<Seq<char>>, separator: Seq<char>) -> Seq<char>
    decreases parts.len(),
{
    if parts.len() == 0 {
        Seq::empty()
    } else if parts.len() == 1 {
        parts[0]
    } else {
        joined(parts.drop_last(), separator) + separator + parts.last()
    }
}

/// Joins `parts` with `separator` between two neighbours.
pub fn join(parts: &[String], separator: &str) -> (text: String)
    ensures
        text@ == joined(texts(parts@), separator@),
{
    let mut text = String::new();
    let ghost all = texts(parts@);
    for index in 0..parts.len()
        invariant
            all == texts(parts@),
            text@ == joined(all.take(index as int), separator@),
    {
        if index > 0 {
            text.append(separator);
        }
        text.append(parts[index].as_str());
        proof {
            assert(all.take(index + 1).drop_last() == all.take(index as int));
            assert(all.take(index + 1).last() == parts[index as int]@);
            if index == 0 {
                assert(text@ == parts[0]@);
            }
        }
    }
    assert(all.take(parts@.len() as int) == all);
    text
}

// ---- numbers ----

/// The digit that stands for `value`, which is below ten.
pub open spec fn digit(value: nat) -> char {
    (48 + value) as char
}

/// The decimal digits of `value`, without leading zeros.
pub open spec fn decimal(value: nat) -> Seq<char>
    decreases value,
{
    if value < 10 {
        seq![digit(value)]
    } else {
        decimal(value / 10).push(digit(value % 10))
    }
}

/// The decimal form of an integer, with a leading `-` below zero.
pub open spec fn signed_decimal(value: int) -> Seq<char> {
    if value < 0 {
        seq!['-'] + decimal((-value) as nat)
    } else {
        decimal(value as nat)
    }
}

/// The number that a digit stands for.
pub open spec fn digit_value(ch: char) -> Option<int> {
    if '0' <= ch && ch <= '9' {
        Some(ch as int - '0' as int)
    } else {
        None
    }
}

/// The number that a text of digits writes.
pub open spec fn decimal_value(text: Seq<char>) -> Option<int>
    decreases text.len(),
{
    if text.len() == 0 {
        None
    } else {
        match digit_value(text.last()) {
            None => None,
            Some(last) => if text.len() == 1 {
                Some(last)
            } else {
                match decimal_value(text.drop_last()) {
                    Some(before) => Some(before * 10 + last),
                    None => None,
                }
            },
        }
    }
}

/// The number that a text of digits writes, with or without a sign.
pub open spec fn signed_value(text: Seq<char>) -> Option<int> {
    if text.len() > 0 && text[0] == '-' {
        match decimal_value(text.skip(1)) {
            Some(value) => Some(-value),
            None => None,
        }
    } else {
        decimal_value(text)
    }
}

proof fn lemma_decimal_reads_back(value: nat)
    ensures
        decimal_value(decimal(value)) == Some(value as int),
        decimal(value).len() > 0,
        digit_value(decimal(value)[0]) is Some,
    decreases value,
{
    let last = digit(value % 10);
    assert(digit_value(last) == Some((value % 10) as int));
    if value >= 10 {
        lemma_decimal_reads_back(value / 10);
        assert(decimal(value).drop_last() =~= decimal(value / 10));
        assert(decimal(value)[0] == decimal(value / 10)[0]);
    }
}

proof fn lemma_decimal_plain(value: nat)
    ensures
        !decimal(value).contains('\n'),
    decreases value,
{
    if value >= 10 {
        lemma_decimal_plain(value / 10);
        let before = decimal(value / 10);
        if decimal(value).contains('\n') {
            let at = decimal(value).index_of('\n');
            if at < before.len() {
                assert(before[at] == '\n');
            }
        }
    }
}

/// The text of a number stands on one line.
pub proof fn lemma_signed_decimal_plain(value: int)
    ensures
        !signed_decimal(value).contains('\n'),
{
    if value < 0 {
        let rest = decimal((-value) as nat);
        lemma_decimal_plain((-value) as nat);
        if signed_decimal(value).contains('\n') {
            let at = signed_decimal(value).index_of('\n');
            assert(rest[at - 1] == '\n');
        }
    } else {
        lemma_decimal_plain(value as nat);
    }
}

/// A number is read back from its text.
pub proof fn lemma_signed_decimal_reads_back(value: int)
    ensures
        signed_value(signed_decimal(value)) == Some(value),
{
    if value < 0 {
        lemma_decimal_reads_back((-value) as nat);
        assert(signed_decimal(value).skip(1) =~= decimal((-value) as nat));
    } else {
        lemma_decimal_reads_back(value as nat);
    }
}

/// Writes `value` in decimal.
pub fn decimal_text(value: u128) -> (text: String)
    ensures
        text@ == decimal(value as nat),
    decreases value,
{
    let last: u8 = (value % 10) as u8;
    let mut text = if value < 10 {
        String::new()
    } else {
        decimal_text(value / 10)
    };
    text.push((48 + last) as char);
    text
}

/// Writes `value` in decimal, with a leading `-` below zero.
pub fn signed_decimal_text(value: i32) -> (text: String)
    ensures
        text@ == signed_decimal(value as int),
{
    if value < 0 {
        let mut text = String::new();
        text.push('-');
        let magnitude: i64 = -(value as i64);
        let digits = decimal_text(magnitude as u128);
        text.append(digits.as_str());
        assert(text@ == seq!['-'] + digits@);
        text
    } else {
        decimal_text(value as u128)
    }
}

// ---- white space ----

/// The characters with the Unicode property White_Space.
pub open spec fn is_white(ch: char) -> bool {
    let code = ch as int;
    ||| 0x9 <= code <= 0xd
    ||| code == 0x20
    ||| code == 0x85
    ||| code == 0xa0
    ||| code == 0x1680
    ||| 0x2000 <= code <= 0x200a
    ||| code == 0x2028
    ||| code == 0x2029
    ||| code == 0x202f
    ||| code == 0x205f
    ||| code == 0x3000
}

/// Whether a text is empty or all white space.
pub open spec fn blank(text: Seq<char>) -> bool {
    forall|i: int| 0 <= i < text.len() ==> is_white(#[trigger] text[i])
}

/// A text without the white space at its end.
pub open spec fn without_trailing_white(text: Seq<char>) -> Seq<char>
    decreases text.len(),
{
    if text.len() > 0 && is_white(text.last()) {
        without_trailing_white(text.drop_last())
    } else {
        text
    }
}

/// Whether `ch` has the Unicode property White_Space.
pub fn is_white_space(ch: char) -> (white: bool)
    ensures
        white == is_white(ch),
{
    let code: u32 = ch as u32;
    (0x9 <= code && code <= 0xd) || code == 0x20 || code == 0x85 || code == 0xa0 || code == 0x1680
        || (0x2000 <= code && code <= 0x200a) || code == 0x2028 || code == 0x2029 || code == 0x202f
        || code == 0x205f || code == 0x3000
}

/// Whether `text` is empty or all white space.
pub fn is_blank(text: &str) -> (result: bool)
    ensures
        result == blank(text@),
{
    let chars = chars_of(text);
    for index in 0..chars.len()
        invariant
            chars@ == text@,
            forall|i: int| 0 <= i < index ==> is_white(#[trigger] text@[i]),
    {
        if !is_white_space(chars[index]) {
            assert(!is_white(text@[index as int]));
            return false;
        }
    }
    true
}

/// `text` without the white space at its end.
pub fn trim_end(text: &str) -> (trimmed: String)
    ensures
        trimmed@ == without_trailing_white(text@),
{
    let chars = chars_of(text);
    let mut end: usize = chars.len();
    assert(chars@.take(end as int) == text@);
    while end > 0 && is_white_space(chars[end - 1])
        invariant
            end <= chars.len(),
            chars@ == text@,
            without_trailing_white(text@) == without_trailing_white(chars@.take(end as int)),
        decreases end,
    {
        assert(chars@.take(end as int).drop_last() == chars@.take(end - 1));
        end = end - 1;
    }
    assert(chars@.subrange(0, end as int) == chars@.take(end as int));
    text_between(chars.as_slice(), 0, end)
}

// ---- names ----

/// A character that a name may start with.
pub open spec fn is_name_start(ch: char) -> bool {
    ch == '_' || ('a' <= ch && ch <= 'z') || ('A' <= ch && ch <= 'Z')
}

/// A character that a name may hold after its first.
pub open spec fn is_name_char(ch: char) -> bool {
    is_name_start(ch) || ('0' <= ch && ch <= '9')
}

/// The names of variables: `[A-Za-z_][A-Za-z0-9_]*`.
pub open spec fn is_name(text: Seq<char>) -> bool {
    &&& text.len() > 0
    &&& is_name_start(text[0])
    &&& forall|i: int| 1 <= i < text.len() ==> is_name_char(#[trigger] text[i])
}

/// Whether `name` matches `[A-Za-z_][A-Za-z0-9_]*`.
pub fn is_valid_name(name: &str) -> (valid: bool)
    ensures
        valid == is_name(name@),
{
    let chars = chars_of(name);
    if chars.len() == 0 {
        return false;
    }
    let first = chars[0];
    if !(first == '_' || ('a' <= first && first <= 'z') || ('A' <= first && first <= 'Z')) {
        return false;
    }
    for index in 1..chars.len()
        invariant
            chars@ == name@,
            forall|i: int| 1 <= i < index ==> is_name_char(#[trigger] name@[i]),
    {
        let ch = chars[index];
        if !(ch == '_' || ('a' <= ch && ch <= 'z') || ('A' <= ch && ch <= 'Z') || ('0' <= ch && ch
            <= '9')) {
            assert(!is_name_char(name@[index as int]));
            return false;
        }
    }
    true
}

// ---- replacing ----

/// Whether `pattern` stands in `text` at `at`.
pub open spec fn occurs_at(text: Seq<char>, pattern: Seq<char>, at: int) -> bool {
    at + pattern.len() <= text.len() && text.subrange(at, at + pattern.len()) == pattern
}

/// `text` with each occurrence of `pattern` replaced, from left to right; an occurrence
/// that overlaps one already replaced is left alone. An empty pattern occurs nowhere.
pub open spec fn replaced(text: Seq<char>, pattern: Seq<char>, with: Seq<char>) -> Seq<char>
    decreases text.len(),
{
    if text.len() == 0 || pattern.len() == 0 {
        text
    } else if occurs_at(text, pattern, 0) {
        with + replaced(text.skip(pattern.len() as int), pattern, with)
    } else {
        seq![text[0]] + replaced(text.skip(1), pattern, with)
    }
}

/// Whether `pattern` stands in `text` at `at`.
fn matches_at(text: &[char], pattern: &[char], at: usize) -> (found: bool)
    requires
        at <= text@.len(),
    ensures
        found == occurs_at(text@, pattern@, at as int),
{
    if pattern.len() > text.len() - at {
        return false;
    }
    for index in 0..pattern.len()
        invariant
            at + pattern.len() <= text.len(),
            forall|i: int| 0 <= i < index ==> text@[at + i] == #[trigger] pattern@[i],
    {
        if text[at + index] != pattern[index] {
            assert(text@.subrange(at as int, at + pattern@.len())[index as int]
                != pattern@[index as int]);
            return false;
        }
    }
    assert(text@.subrange(at as int, at + pattern@.len()) == pattern@);
    true
}

/// Replaces each occurrence of `pattern` in `text`, from left to right.
pub fn replace_all(text: &str, pattern: &str, with: &str) -> (result: String)
    ensures
        result@ == replaced(text@, pattern@, with@),
{
    let chars = chars_of(text);
    let wanted = chars_of(pattern);
    if wanted.len() == 0 {
        return text.to_owned();
    }
    let mut result = String::new();
    let mut index: usize = 0;
    assert(chars@.skip(0) == chars@);
    while index < chars.len()
        invariant
            chars@ == text@,
            wanted@ == pattern@,
            wanted.len() > 0,
            index <= chars.len(),
            replaced(text@, pattern@, with@) == result@ + replaced(
                chars@.skip(index as int),
                pattern@,
                with@,
            ),
        decreases chars.len() - index,
    {
        let ghost rest = chars@.skip(index as int);
        assert(occurs_at(rest, pattern@, 0) == occurs_at(chars@, pattern@, index as int)) by {
            if index + pattern@.len() <= chars@.len() {
                assert(rest.subrange(0, pattern@.len() as int) == chars@.subrange(
                    index as int,
                    index + pattern@.len(),
                ));
            }
        }
        if matches_at(chars.as_slice(), wanted.as_slice(), index) {
            assert(rest.skip(pattern@.len() as int) == chars@.skip(index + pattern@.len()));
            assert(result@ + (with@ + replaced(
                rest.skip(pattern@.len() as int),
                pattern@,
                with@,
            )) == (result@ + with@) + replaced(
                rest.skip(pattern@.len() as int),
                pattern@,
                with@,
            ));
            result.append(with);
            index = index + wanted.len();
        } else {
            assert(rest.skip(1) == chars@.skip(index + 1));
            assert(result@ + (seq![rest[0]] + replaced(rest.skip(1), pattern@, with@))
                == result@.push(rest[0]) + replaced(rest.skip(1), pattern@, with@));
            result.push(chars[index]);
            index = index + 1;
        }
    }
    assert(chars@.skip(index as int) == Seq::<char>::empty());
    assert(result@ + Seq::<char>::empty() == result@);
    result
}

} // verus!
