//! Text as sequences of characters: searching, trimming, ordering, digits.

use vstd::prelude::*;
use vstd::string::*;

verus! {

/// `part` stands in `text` from index `at` on.
pub open spec fn occurs_at(text: Seq<char>, part: Seq<char>, at: int) -> bool {
    &&& 0 <= at
    &&& at + part.len() <= text.len()
    &&& text.subrange(at, at + part.len()) == part
}

/// `part` stands somewhere in `text`.
pub open spec fn occurs(text: Seq<char>, part: Seq<char>) -> bool {
    exists|at: int| occurs_at(text, part, at)
}

/// One of `parts` stands somewhere in `text`.
pub open spec fn occurs_any(text: Seq<char>, parts: Seq<Seq<char>>) -> bool {
    exists|i: int| 0 <= i < parts.len() && occurs(text, #[trigger] parts[i])
}

/// A lower-case ASCII letter.
pub open spec fn is_lower_letter(c: char) -> bool {
    'a' <= c && c <= 'z'
}

/// `word` stands in `text`, a text in lower case, from index `at` on, with no letter right before
/// or behind it.
pub open spec fn word_at(text: Seq<char>, word: Seq<char>, at: int) -> bool {
    &&& occurs_at(text, word, at)
    &&& at > 0 ==> !is_lower_letter(text[at - 1])
    &&& at + word.len() < text.len() ==> !is_lower_letter(text[at + word.len()])
}

/// `word` stands somewhere in `text` as a word of its own.
pub open spec fn occurs_as_word(text: Seq<char>, word: Seq<char>) -> bool {
    exists|at: int| word_at(text, word, at)
}

/// One of `words` stands somewhere in `text` as a word of its own.
pub open spec fn occurs_any_word(text: Seq<char>, words: Seq<Seq<char>>) -> bool {
    exists|i: int| 0 <= i < words.len() && occurs_as_word(text, #[trigger] words[i])
}

/// `at` is the leftmost place where `part` stands in `text`.
pub open spec fn occurs_first_at(text: Seq<char>, part: Seq<char>, at: int) -> bool {
    &&& occurs_at(text, part, at)
    &&& forall|j: int| #[trigger] occurs_at(text, part, j) ==> at <= j
}

/// `at` is the rightmost place where `part` stands in `text`.
pub open spec fn occurs_last_at(text: Seq<char>, part: Seq<char>, at: int) -> bool {
    &&& occurs_at(text, part, at)
    &&& forall|j: int| #[trigger] occurs_at(text, part, j) ==> j <= at
}

/// The leftmost place of `part` in `text`, if there is one.
pub open spec fn first_occurrence(text: Seq<char>, part: Seq<char>) -> Option<int> {
    if occurs(text, part) {
        Some(choose|at: int| occurs_first_at(text, part, at))
    } else {
        None
    }
}

/// The rightmost place of `part` in `text`, if there is one.
pub open spec fn last_occurrence(text: Seq<char>, part: Seq<char>) -> Option<int> {
    if occurs(text, part) {
        Some(choose|at: int| occurs_last_at(text, part, at))
    } else {
        None
    }
}

/// `text` ends with `ending`.
pub open spec fn ends_with(text: Seq<char>, ending: Seq<char>) -> bool {
    occurs_at(text, ending, text.len() - ending.len())
}

/// `text` without its last `ending.len()` characters.
pub open spec fn without_ending(text: Seq<char>, ending: Seq<char>) -> Seq<char> {
    text.take(text.len() - ending.len())
}

/// An ASCII decimal digit.
pub open spec fn is_digit(c: char) -> bool {
    '0' <= c && c <= '9'
}

/// Every character of `text` is an ASCII decimal digit.
pub open spec fn all_digits(text: Seq<char>) -> bool {
    forall|i: int| 0 <= i < text.len() ==> is_digit(#[trigger] text[i])
}

/// The lower-case form of an ASCII letter; any other character is itself.
pub open spec fn lower_char(c: char) -> char {
    if 'A' <= c && c <= 'Z' {
        ((c as u32) + 32) as char
    } else {
        c
    }
}

/// `text` with its ASCII letters in lower case.
pub open spec fn lower(text: Seq<char>) -> Seq<char> {
    text.map_values(|c: char| lower_char(c))
}

/// The lexicographic order of texts by code point: a proper prefix comes first.
pub open spec fn before(a: Seq<char>, b: Seq<char>) -> bool
    decreases a.len(),
{
    if b.len() == 0 {
        false
    } else if a.len() == 0 {
        true
    } else if a[0] == b[0] {
        before(a.drop_first(), b.drop_first())
    } else {
        a[0] < b[0]
    }
}

/// The decimal digit of value `d`.
pub open spec fn digit(d: nat) -> char {
    ((d % 10) + 48) as char
}

/// `n` in decimal, without leading zeros.
pub open spec fn decimal(n: nat) -> Seq<char>
    decreases n,
{
    if n < 10 {
        seq![digit(n)]
    } else {
        decimal(n / 10).push(digit(n % 10))
    }
}

/// The characters of a text.
pub fn chars_of(text: &str) -> (chars: Vec<char>)
    ensures
        chars@ == text@,
{
    let mut chars: Vec<char> = Vec::new();
    for c in it: text.chars()
        invariant
            chars@ == it.seq().take(it.index()),
    {
        chars.push(c);
    }
    chars
}

/// A place that is leftmost is the one that `first_occurrence` gives.
pub proof fn lemma_first_occurrence(text: Seq<char>, part: Seq<char>, at: int)
    requires
        occurs_first_at(text, part, at),
    ensures
        first_occurrence(text, part) == Some(at),
{
    let chosen = choose|i: int| occurs_first_at(text, part, i);
    assert(occurs_first_at(text, part, chosen));
}

/// A text that stands in another stands there first at some place.
proof fn lemma_occurs_first(text: Seq<char>, part: Seq<char>, at: int)
    requires
        occurs_at(text, part, at),
    ensures
        exists|first: int| occurs_first_at(text, part, first),
    decreases at,
{
    if exists|j: int| occurs_at(text, part, j) && j < at {
        let j = choose|j: int| occurs_at(text, part, j) && j < at;
        lemma_occurs_first(text, part, j);
    } else {
        assert(occurs_first_at(text, part, at));
    }
}

/// Where a text stands in another, `first_occurrence` gives the leftmost place.
pub proof fn lemma_first_place(text: Seq<char>, part: Seq<char>)
    requires
        occurs(text, part),
    ensures
        occurs_first_at(text, part, first_occurrence(text, part)->0),
{
    let at = choose|at: int| occurs_at(text, part, at);
    lemma_occurs_first(text, part, at);
}

/// A place that is rightmost is the one that `last_occurrence` gives.
pub proof fn lemma_last_occurrence(text: Seq<char>, part: Seq<char>, at: int)
    requires
        occurs_last_at(text, part, at),
    ensures
        last_occurrence(text, part) == Some(at),
{
    let chosen = choose|i: int| occurs_last_at(text, part, i);
    assert(occurs_last_at(text, part, chosen));
}

/// A text that stands in another stands there last at some place.
proof fn lemma_occurs_last(text: Seq<char>, part: Seq<char>, at: int)
    requires
        occurs_at(text, part, at),
    ensures
        exists|last: int| occurs_last_at(text, part, last),
    decreases text.len() - at,
{
    if exists|j: int| occurs_at(text, part, j) && j > at {
        let j = choose|j: int| occurs_at(text, part, j) && j > at;
        lemma_occurs_last(text, part, j);
    } else {
        assert(occurs_last_at(text, part, at));
    }
}

/// Where a text stands in another, `last_occurrence` gives the rightmost place.
pub proof fn lemma_last_place(text: Seq<char>, part: Seq<char>)
    requires
        occurs(text, part),
    ensures
        occurs_last_at(text, part, last_occurrence(text, part)->0),
{
    let at = choose|at: int| occurs_at(text, part, at);
    lemma_occurs_last(text, part, at);
}

/// Whether `part` stands in `text` from index `at` on.
pub fn matches_at(text: &Vec<char>, part: &Vec<char>, at: usize) -> (r: bool)
    ensures
        r == occurs_at(text@, part@, at as int),
{
    if part.len() > text.len() || at > text.len() - part.len() {
        return false;
    }
    let mut i: usize = 0;
    while i < part.len()
        invariant
            at + part.len() <= text.len(),
            i <= part.len(),
            forall|j: int| 0 <= j < i ==> text@[at + j] == part@[j],
        decreases part.len() - i,
    {
        if text[at + i] != part[i] {
            assert(text@.subrange(at as int, at + part@.len())[i as int] != part@[i as int]);
            return false;
        }
        i = i + 1;
    }
    assert(text@.subrange(at as int, at + part@.len()) =~= part@);
    true
}

/// The leftmost place of `part` in `text`.
pub fn find_first(text: &Vec<char>, part: &Vec<char>) -> (r: Option<usize>)
    ensures
        match r {
            Some(at) => first_occurrence(text@, part@) == Some(at as int)
                && occurs_first_at(text@, part@, at as int),
            None => !occurs(text@, part@),
        },
{
    if part.len() > text.len() {
        return None;
    }
    let last: usize = text.len() - part.len();
    let mut at: usize = 0;
    loop
        invariant
            last + part.len() == text.len(),
            at <= last,
            forall|j: int| 0 <= j < at ==> !occurs_at(text@, part@, j),
        decreases last - at,
    {
        if matches_at(text, part, at) {
            proof {
                lemma_first_occurrence(text@, part@, at as int);
            }
            return Some(at);
        }
        if at == last {
            return None;
        }
        at = at + 1;
    }
}

/// The rightmost place of `part` in `text`.
pub fn find_last(text: &Vec<char>, part: &Vec<char>) -> (r: Option<usize>)
    ensures
        match r {
            Some(at) => last_occurrence(text@, part@) == Some(at as int)
                && occurs_last_at(text@, part@, at as int),
            None => !occurs(text@, part@),
        },
{
    if part.len() > text.len() {
        return None;
    }
    let mut at: usize = text.len() - part.len();
    loop
        invariant
            at + part.len() <= text.len(),
            forall|j: int| at < j ==> !occurs_at(text@, part@, j),
        decreases at,
    {
        if matches_at(text, part, at) {
            proof {
                lemma_last_occurrence(text@, part@, at as int);
            }
            return Some(at);
        }
        if at == 0 {
            return None;
        }
        at = at - 1;
    }
}

/// Whether `part` stands somewhere in `text`.
pub fn contains(text: &Vec<char>, part: &str) -> (r: bool)
    ensures
        r == occurs(text@, part@),
{
    let part_chars = chars_of(part);
    find_first(text, &part_chars).is_some()
}

/// Whether `text` ends with `ending`.
pub fn has_ending(text: &Vec<char>, ending: &str) -> (r: bool)
    ensures
        r == ends_with(text@, ending@),
{
    let chars = chars_of(ending);
    if chars.len() > text.len() {
        return false;
    }
    matches_at(text, &chars, text.len() - chars.len())
}

/// Whether one of `parts` stands somewhere in `text`.
pub fn contains_any(text: &Vec<char>, parts: &[&str]) -> (r: bool)
    ensures
        r == occurs_any(text@, parts@.map_values(|part: &str| part@)),
{
    let ghost views = parts@.map_values(|part: &str| part@);
    let mut i: usize = 0;
    while i < parts.len()
        invariant
            views == parts@.map_values(|part: &str| part@),
            i <= parts@.len(),
            forall|j: int| 0 <= j < i ==> !occurs(text@, #[trigger] views[j]),
        decreases parts@.len() - i,
    {
        assert(views[i as int] == parts@[i as int]@);
        if contains(text, parts[i]) {
            return true;
        }
        i = i + 1;
    }
    false
}

/// Whether a lower-case letter stands in `text` at index `at`.
fn letter_at(text: &Vec<char>, at: usize) -> (r: bool)
    requires
        at < text.len(),
    ensures
        r == is_lower_letter(text@[at as int]),
{
    'a' <= text[at] && text[at] <= 'z'
}

/// Whether a lower-case letter stands in `text` right before index `at`.
fn letter_before(text: &Vec<char>, at: usize) -> (r: bool)
    requires
        at <= text.len(),
    ensures
        r == (at > 0 && is_lower_letter(text@[at - 1])),
{
    at > 0 && letter_at(text, at - 1)
}

/// Whether `word` stands somewhere in `text` as a word of its own.
pub fn contains_word(text: &Vec<char>, word: &str) -> (r: bool)
    ensures
        r == occurs_as_word(text@, word@),
{
    let chars = chars_of(word);
    let len: usize = chars.len();
    if len > text.len() {
        return false;
    }
    let end: usize = text.len() - len;
    let mut at: usize = 0;
    while at < end
        invariant
            chars@ == word@,
            len == chars.len(),
            len + end == text.len(),
            at <= end,
            forall|j: int| 0 <= j < at ==> !word_at(text@, word@, j),
        decreases end - at,
    {
        if matches_at(text, &chars, at) && !letter_before(text, at) && !letter_at(text, at + len) {
            assert(word_at(text@, word@, at as int));
            return true;
        }
        at = at + 1;
    }
    let last = matches_at(text, &chars, end) && !letter_before(text, end);
    assert(last == word_at(text@, word@, end as int));
    last
}

/// Whether one of `words` stands somewhere in `text` as a word of its own.
pub fn contains_any_word(text: &Vec<char>, words: &[&str]) -> (r: bool)
    ensures
        r == occurs_any_word(text@, words@.map_values(|part: &str| part@)),
{
    let ghost views = words@.map_values(|part: &str| part@);
    let mut i: usize = 0;
    while i < words.len()
        invariant
            views == words@.map_values(|part: &str| part@),
            i <= words@.len(),
            forall|j: int| 0 <= j < i ==> !occurs_as_word(text@, #[trigger] views[j]),
        decreases words@.len() - i,
    {
        assert(views[i as int] == words@[i as int]@);
        if contains_word(text, words[i]) {
            return true;
        }
        i = i + 1;
    }
    false
}

/// Whether two texts hold the same characters.
pub fn same_text(a: &str, b: &str) -> (r: bool)
    ensures
        r == (a@ == b@),
{
    let xs = chars_of(a);
    let ys = chars_of(b);
    if xs.len() != ys.len() {
        return false;
    }
    let mut i: usize = 0;
    while i < xs.len()
        invariant
            xs@ == a@,
            ys@ == b@,
            xs.len() == ys.len(),
            i <= xs.len(),
            forall|j: int| 0 <= j < i ==> xs@[j] == ys@[j],
        decreases xs.len() - i,
    {
        if xs[i] != ys[i] {
            return false;
        }
        i = i + 1;
    }
    assert(xs@ =~= ys@);
    true
}

/// Whether every character of `chars` is an ASCII decimal digit.
pub fn only_digits(chars: &Vec<char>) -> (r: bool)
    ensures
        r == all_digits(chars@),
{
    let mut i: usize = 0;
    while i < chars.len()
        invariant
            i <= chars.len(),
            forall|j: int| 0 <= j < i ==> is_digit(#[trigger] chars@[j]),
        decreases chars.len() - i,
    {
        let c: char = chars[i];
        if !('0' <= c && c <= '9') {
            assert(!is_digit(chars@[i as int]));
            return false;
        }
        i = i + 1;
    }
    true
}

/// The characters from `from` up to `to`.
pub fn slice_chars(chars: &Vec<char>, from: usize, to: usize) -> (r: Vec<char>)
    requires
        from <= to <= chars.len(),
    ensures
        r@ == chars@.subrange(from as int, to as int),
{
    let mut r: Vec<char> = Vec::new();
    let mut i: usize = from;
    while i < to
        invariant
            from <= i <= to <= chars.len(),
            r@ == chars@.subrange(from as int, i as int),
        decreases to - i,
    {
        r.push(chars[i]);
        i = i + 1;
        assert(r@ =~= chars@.subrange(from as int, i as int));
    }
    r
}

/// The characters with ASCII letters in lower case.
pub fn to_lower(chars: &Vec<char>) -> (r: Vec<char>)
    ensures
        r@ == lower(chars@),
{
    let mut r: Vec<char> = Vec::new();
    let mut i: usize = 0;
    while i < chars.len()
        invariant
            i <= chars.len(),
            r@ == lower(chars@).take(i as int),
        decreases chars.len() - i,
    {
        let c: char = chars[i];
        r.push(lower_letter(c));
        i = i + 1;
        assert(r@ =~= lower(chars@).take(i as int));
    }
    assert(r@ =~= lower(chars@));
    r
}

/// The lower-case form of an ASCII letter.
fn lower_letter(c: char) -> (r: char)
    ensures
        r == lower_char(c),
{
    if 'A' <= c && c <= 'Z' {
        ((c as u8) + 32) as char
    } else {
        c
    }
}

/// Whether `a` comes before `b` in the lexicographic order of texts.
pub fn text_before(a: &str, b: &str) -> (r: bool)
    ensures
        r == before(a@, b@),
{
    let xs = chars_of(a);
    let ys = chars_of(b);
    let mut i: usize = 0;
    assert(xs@.skip(0) =~= xs@);
    assert(ys@.skip(0) =~= ys@);
    while i < xs.len() && i < ys.len()
        invariant
            xs@ == a@,
            ys@ == b@,
            i <= xs.len(),
            i <= ys.len(),
            before(a@, b@) == before(xs@.skip(i as int), ys@.skip(i as int)),
        decreases xs.len() - i,
    {
        if xs[i] != ys[i] {
            return xs[i] < ys[i];
        }
        assert(xs@.skip(i as int).drop_first() =~= xs@.skip(i + 1));
        assert(ys@.skip(i as int).drop_first() =~= ys@.skip(i + 1));
        i = i + 1;
    }
    i < ys.len()
}

/// No text comes before itself.
pub proof fn lemma_before_irreflexive(a: Seq<char>)
    ensures
        !before(a, a),
    decreases a.len(),
{
    if a.len() > 0 {
        lemma_before_irreflexive(a.drop_first());
    }
}

/// The order of texts is transitive.
pub proof fn lemma_before_transitive(a: Seq<char>, b: Seq<char>, c: Seq<char>)
    requires
        before(a, b),
        before(b, c),
    ensures
        before(a, c),
    decreases a.len(),
{
    if a.len() > 0 && a[0] == b[0] && b[0] == c[0] {
        lemma_before_transitive(a.drop_first(), b.drop_first(), c.drop_first());
    }
}

/// Two different texts stand in one order or the other.
pub proof fn lemma_before_total(a: Seq<char>, b: Seq<char>)
    requires
        a != b,
    ensures
        before(a, b) || before(b, a),
    decreases a.len(),
{
    if a.len() == 0 && b.len() == 0 {
        assert(a =~= b);
    } else if a.len() > 0 && b.len() > 0 && a[0] == b[0] {
        if a.drop_first() == b.drop_first() {
            assert(a =~= seq![a[0]] + a.drop_first());
            assert(b =~= seq![b[0]] + b.drop_first());
        } else {
            lemma_before_total(a.drop_first(), b.drop_first());
        }
    }
}

/// A text in front of both sides leaves their order as it is.
pub proof fn lemma_before_common_prefix(p: Seq<char>, a: Seq<char>, b: Seq<char>)
    ensures
        before(p + a, p + b) == before(a, b),
    decreases p.len(),
{
    if p.len() == 0 {
        assert(p + a =~= a);
        assert(p + b =~= b);
    } else {
        assert((p + a).drop_first() =~= p.drop_first() + a);
        assert((p + b).drop_first() =~= p.drop_first() + b);
        lemma_before_common_prefix(p.drop_first(), a, b);
    }
}

/// `n` in decimal, with zeros in front up to `width` characters.
pub open spec fn zero_padded(n: nat, width: nat) -> Seq<char> {
    let digits = decimal(n);
    if digits.len() < width {
        Seq::new((width - digits.len()) as nat, |i: int| '0') + digits
    } else {
        digits
    }
}

/// A signed number in decimal, with zeros after the sign up to `width` characters in all.
pub open spec fn signed_zero_padded(n: int, width: nat) -> Seq<char> {
    if n < 0 {
        "-"@ + zero_padded((-n) as nat, if width > 0 { (width - 1) as nat } else { 0 })
    } else {
        zero_padded(n as nat, width)
    }
}

/// The text of one decimal digit.
fn digit_text(d: u64) -> (r: &'static str)
    requires
        d < 10,
    ensures
        r@ == seq![digit(d as nat)],
{
    proof {
        reveal_strlit("0");
        reveal_strlit("1");
        reveal_strlit("2");
        reveal_strlit("3");
        reveal_strlit("4");
        reveal_strlit("5");
        reveal_strlit("6");
        reveal_strlit("7");
        reveal_strlit("8");
        reveal_strlit("9");
    }
    let r: &'static str = if d == 0 {
        "0"
    } else if d == 1 {
        "1"
    } else if d == 2 {
        "2"
    } else if d == 3 {
        "3"
    } else if d == 4 {
        "4"
    } else if d == 5 {
        "5"
    } else if d == 6 {
        "6"
    } else if d == 7 {
        "7"
    } else if d == 8 {
        "8"
    } else {
        "9"
    };
    assert(r@ =~= seq![digit(d as nat)]);
    r
}

/// `n` in decimal.
pub fn decimal_text(n: u64) -> (r: String)
    ensures
        r@ == decimal(n as nat),
    decreases n,
{
    if n < 10 {
        String::from_str(digit_text(n))
    } else {
        let mut r = decimal_text(n / 10);
        r.append(digit_text(n % 10));
        assert(r@ =~= decimal(n as nat / 10).push(digit(n as nat % 10)));
        r
    }
}

/// `n` in decimal, with zeros in front up to `width` characters.
pub fn zero_padded_text(n: u64, width: usize) -> (r: String)
    ensures
        r@ == zero_padded(n as nat, width as nat),
{
    let digits = decimal_text(n);
    let len: usize = digits.as_str().unicode_len();
    let mut r = String::new();
    let mut i: usize = len;
    while i < width
        invariant
            len <= i,
            i <= width || i == len,
            r@ == Seq::new((i - len) as nat, |k: int| '0'),
        decreases width - i,
    {
        proof {
            reveal_strlit("0");
        }
        r.append("0");
        i = i + 1;
        assert(r@ =~= Seq::new((i - len) as nat, |k: int| '0'));
    }
    r.append(digits.as_str());
    assert(r@ =~= zero_padded(n as nat, width as nat));
    r
}

/// A signed number in decimal, with zeros after the sign up to `width` characters in all.
pub fn signed_zero_padded_text(n: i64, width: usize) -> (r: String)
    ensures
        r@ == signed_zero_padded(n as int, width as nat),
{
    if n < 0 {
        let magnitude: u64 = ((-(n + 1)) as u64) + 1;
        let rest: usize = if width > 0 {
            width - 1
        } else {
            0
        };
        let digits = zero_padded_text(magnitude, rest);
        let mut r = String::from_str("-");
        r.append(digits.as_str());
        r
    } else {
        zero_padded_text(n as u64, width)
    }
}

/// Of two texts the one that goes on where the other ends comes later, and where they part the
/// smaller character decides, whatever comes behind it.
pub proof fn law_text_order(front: Seq<char>, x: char, a: Seq<char>, y: char, b: Seq<char>)
    ensures
        before(front, front + seq![y] + b),
        !before(front + seq![x] + a, front),
        x != y ==> (before(front + seq![x] + a, front + seq![y] + b) <==> x < y),
{
    let none = Seq::<char>::empty();
    let left = seq![x] + a;
    let right = seq![y] + b;
    assert(front + none =~= front);
    assert(front + seq![x] + a =~= front + left);
    assert(front + seq![y] + b =~= front + right);
    lemma_before_common_prefix(front, none, right);
    lemma_before_common_prefix(front, left, none);
    lemma_before_common_prefix(front, left, right);
}

/// A text holds just the parts that stand in it letter for letter.
pub proof fn law_parts_of_a_text(text: Seq<char>, part: Seq<char>)
    ensures
        occurs(text, part) <==> exists|front: Seq<char>, back: Seq<char>|
            text == #[trigger] (front + part + back),
{
    if occurs(text, part) {
        let at = choose|at: int| occurs_at(text, part, at);
        let front = text.take(at);
        let back = text.skip(at + part.len());
        assert(text.subrange(at, at + part.len()) == part);
        assert(text =~= front + part + back);
    }
    if exists|front: Seq<char>, back: Seq<char>| text == #[trigger] (front + part + back) {
        let (front, back) = choose|front: Seq<char>, back: Seq<char>|
            text == #[trigger] (front + part + back);
        let at = front.len() as int;
        assert(text.subrange(at, at + part.len()) =~= part);
        assert(occurs_at(text, part, at));
    }
}

} // verus!
