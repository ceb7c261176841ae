//! Texts as sequences of characters: searching, splitting, trimming and
//! ordering, each stated over the characters and computed on the bytes.

use vstd::prelude::*;
use vstd::string::*;
use vstd::utf8::*;

use crate::utf8_facts;

verus! {

/// The characters of a text.
pub type Text = Seq<char>;

/// The texts of a list of strings.
pub open spec fn texts(strings: Seq<String>) -> Seq<Text> {
    strings.map_values(|s: String| s@)
}

/// Adding a string adds its text.
pub proof fn lemma_texts_push(strings: Seq<String>, s: String)
    ensures
        texts(strings.push(s)) == texts(strings).push(s@),
{
    assert(texts(strings.push(s)) =~= texts(strings).push(s@));
}

/// `part` stands in `whole` from position `i` on.
pub open spec fn occurs_at(whole: Text, part: Text, i: int) -> bool {
    &&& 0 <= i
    &&& i + part.len() <= whole.len()
    &&& whole.subrange(i, i + part.len()) == part
}

/// `part` stands somewhere in `whole`.
pub open spec fn contains_text(whole: Text, part: Text) -> bool {
    exists|i: int| occurs_at(whole, part, i)
}

/// `i` is the leftmost position at which `part` stands in `whole`.
pub open spec fn first_at(whole: Text, part: Text, i: int) -> bool {
    &&& occurs_at(whole, part, i)
    &&& forall|j: int| 0 <= j < i ==> !occurs_at(whole, part, j)
}

/// What stands before and after the leftmost `separator`, if there is one.
pub open spec fn split_first(whole: Text, separator: Text) -> Option<(Text, Text)> {
    if contains_text(whole, separator) {
        let i = choose|i: int| first_at(whole, separator, i);
        Some((whole.take(i), whole.skip(i + separator.len())))
    } else {
        None
    }
}

/// A leftmost position is the only one, and it decides the split.
pub proof fn lemma_split_first(whole: Text, separator: Text, i: int)
    requires
        first_at(whole, separator, i),
    ensures
        contains_text(whole, separator),
        split_first(whole, separator) == Some(
            (whole.take(i), whole.skip(i + separator.len())),
        ),
{
    let c = choose|c: int| first_at(whole, separator, c);
    assert(first_at(whole, separator, c));
    if c < i {
        assert(!occurs_at(whole, separator, c));
    } else if i < c {
        assert(!occurs_at(whole, separator, i));
    }
}

/// Where `part` occurs at all, it has a leftmost position.
pub proof fn lemma_first_exists(whole: Text, part: Text, i: int) -> (k: int)
    requires
        occurs_at(whole, part, i),
    ensures
        first_at(whole, part, k),
        k <= i,
    decreases i,
{
    if exists|j: int| 0 <= j < i && occurs_at(whole, part, j) {
        let j = choose|j: int| 0 <= j < i && occurs_at(whole, part, j);
        lemma_first_exists(whole, part, j)
    } else {
        i
    }
}

/// The parts that result are shorter than the whole by the separator.
pub proof fn lemma_split_parts(whole: Text, separator: Text)
    ensures
        split_first(whole, separator) matches Some((before, after)) ==> {
            &&& whole == before + separator + after
            &&& before.len() + separator.len() + after.len() == whole.len()
            &&& first_at(whole, separator, before.len() as int)
        },
{
    if contains_text(whole, separator) {
        let i = choose|i: int| occurs_at(whole, separator, i);
        let k = lemma_first_exists(whole, separator, i);
        lemma_split_first(whole, separator, k);
        assert(whole =~= whole.take(k) + separator + whole.skip(k + separator.len())) by {
            assert(whole.subrange(k, k + separator.len()) == separator);
            assert forall|j: int| k <= j < k + separator.len() implies whole[j]
                == separator[j - k] by {
                assert(whole.subrange(k, k + separator.len())[j - k] == separator[j - k]);
            }
        }
    }
}

/// All the parts between the separators, the empty ones among them.
pub open spec fn split_all(whole: Text, separator: Text) -> Seq<Text>
    decreases whole.len(),
{
    match split_first(whole, separator) {
        Some((before, after)) => if after.len() < whole.len() {
            seq![before] + split_all(after, separator)
        } else {
            seq![whole]
        },
        None => seq![whole],
    }
}

/// The text without the line ends that close it.
pub open spec fn without_line_end(s: Text) -> Text
    decreases s.len(),
{
    if s.len() > 0 && (s.last() == '\n' || s.last() == '\r') {
        without_line_end(s.drop_last())
    } else {
        s
    }
}

/// The text without the copies of `prefix` that start it.
pub open spec fn without_prefixes(s: Text, prefix: Text) -> Text
    decreases s.len(),
{
    if 0 < prefix.len() && occurs_at(s, prefix, 0) {
        without_prefixes(s.skip(prefix.len() as int), prefix)
    } else {
        s
    }
}

/// The characters with Unicode's `White_Space` property.
pub open spec fn white_space(c: char) -> bool {
    let u = c as u32;
    ||| 0x9 <= u <= 0xd
    ||| u == 0x20
    ||| u == 0x85
    ||| u == 0xa0
    ||| u == 0x1680
    ||| 0x2000 <= u <= 0x200a
    ||| u == 0x2028
    ||| u == 0x2029
    ||| u == 0x202f
    ||| u == 0x205f
    ||| u == 0x3000
}

/// Every character is white space (so also where there is none).
pub open spec fn blank(s: Text) -> bool {
    forall|i: int| 0 <= i < s.len() ==> white_space(#[trigger] s[i])
}

/// Position `i` decides that `a` comes before `b`: they agree up to it, and
/// there `a` ends or holds the smaller byte.
pub open spec fn smaller_at(a: Seq<u8>, b: Seq<u8>, i: int) -> bool {
    &&& 0 <= i <= a.len()
    &&& i < b.len()
    &&& forall|j: int| 0 <= j < i ==> a[j] == b[j]
    &&& i < a.len() ==> a[i] < b[i]
}

/// `a` comes before `b` in the order of strings, which compares the bytes.
pub open spec fn text_before(a: Text, b: Text) -> bool {
    exists|i: int| smaller_at(encode_utf8(a), encode_utf8(b), i)
}

/// No text comes before itself.
pub proof fn lemma_before_irreflexive(a: Text)
    ensures
        !text_before(a, a),
{
}

/// The order of texts is transitive.
pub proof fn lemma_before_transitive(a: Text, b: Text, c: Text)
    requires
        text_before(a, b),
        text_before(b, c),
    ensures
        text_before(a, c),
{
    let (x, y, z) = (encode_utf8(a), encode_utf8(b), encode_utf8(c));
    let i = choose|i: int| smaller_at(x, y, i);
    let j = choose|j: int| smaller_at(y, z, j);
    let k = if i < j { i } else { j };
    assert(smaller_at(x, z, k));
}

/// Of two byte sequences that agree up to a position, one is smaller or both are the same.
proof fn lemma_bytes_total(a: Seq<u8>, b: Seq<u8>, i: int)
    requires
        0 <= i <= a.len(),
        i <= b.len(),
        forall|j: int| 0 <= j < i ==> a[j] == b[j],
    ensures
        a == b || (exists|k: int| smaller_at(a, b, k)) || (exists|k: int| smaller_at(b, a, k)),
    decreases a.len() - i,
{
    if i < a.len() && i < b.len() && a[i] == b[i] {
        lemma_bytes_total(a, b, i + 1);
    } else if i == a.len() && i == b.len() {
        assert(a =~= b);
    } else {
        assert(smaller_at(a, b, i) || smaller_at(b, a, i));
    }
}

/// Of two different texts one comes before the other.
pub proof fn lemma_before_total(a: Text, b: Text)
    ensures
        a == b || text_before(a, b) || text_before(b, a),
{
    lemma_bytes_total(encode_utf8(a), encode_utf8(b), 0);
    if encode_utf8(a) == encode_utf8(b) {
        utf8_facts::lemma_encode_injective(a, b);
    }
}

/// How one text stands to another in the order of strings.
pub enum TextOrder {
    Before,
    Same,
    After,
}

/// Compares two strings as their order does.
pub fn compare_texts(a: &str, b: &str) -> (order: TextOrder)
    ensures
        order is Before <==> text_before(a@, b@),
        order is Same <==> a@ == b@,
        order is After <==> text_before(b@, a@),
{
    let x = a.as_bytes();
    let y = b.as_bytes();
    let mut i: usize = 0;
    proof {
        lemma_before_irreflexive(a@);
        if text_before(a@, b@) && text_before(b@, a@) {
            lemma_before_transitive(a@, b@, a@);
        }
    }
    while i < x.len() && i < y.len() && x[i] == y[i]
        invariant
            i <= x.len(),
            i <= y.len(),
            forall|j: int| 0 <= j < i ==> x@[j] == y@[j],
        decreases x.len() - i,
    {
        i += 1;
    }
    if i == x.len() && i == y.len() {
        proof {
            assert(x@ =~= y@);
            utf8_facts::lemma_encode_injective(a@, b@);
        }
        TextOrder::Same
    } else if i == x.len() || (i < y.len() && x[i] < y[i]) {
        assert(smaller_at(x@, y@, i as int));
        TextOrder::Before
    } else {
        assert(smaller_at(y@, x@, i as int));
        TextOrder::After
    }
}

/// Whether two strings hold the same text.
pub fn same_text(a: &str, b: &str) -> (same: bool)
    ensures
        same == (a@ == b@),
{
    match compare_texts(a, b) {
        TextOrder::Same => true,
        _ => false,
    }
}

/// Whether the list holds the text.
pub fn list_contains(list: &[String], wanted: &str) -> (found: bool)
    ensures
        found == texts(list@).contains(wanted@),
{
    let mut i: usize = 0;
    while i < list.len()
        invariant
            i <= list.len(),
            forall|j: int| 0 <= j < i ==> #[trigger] texts(list@)[j] != wanted@,
        decreases list.len() - i,
    {
        if same_text(list[i].as_str(), wanted) {
            assert(texts(list@)[i as int] == wanted@);
            return true;
        }
        i += 1;
    }
    false
}

/// A copy of a list of strings.
pub fn copy_list(list: &[String]) -> (copy: Vec<String>)
    ensures
        texts(copy@) == texts(list@),
{
    let mut copy: Vec<String> = Vec::new();
    let mut i: usize = 0;
    while i < list.len()
        invariant
            i <= list.len(),
            texts(copy@) =~= texts(list@).take(i as int),
        decreases list.len() - i,
    {
        proof {
            lemma_texts_push(copy@, list@[i as int]);
            assert(texts(list@).take(i + 1) =~= texts(list@).take(i as int).push(
                list@[i as int]@,
            ));
        }
        copy.push(list[i].clone());
        i += 1;
    }
    assert(texts(list@).take(i as int) =~= texts(list@));
    copy
}

/// Whether two lists hold the same texts in the same order.
pub fn same_list(a: &[String], b: &[String]) -> (same: bool)
    ensures
        same == (texts(a@) == texts(b@)),
{
    if a.len() != b.len() {
        assert(texts(a@).len() != texts(b@).len());
        return false;
    }
    let mut i: usize = 0;
    while i < a.len()
        invariant
            i <= a.len(),
            a.len() == b.len(),
            forall|j: int| 0 <= j < i ==> #[trigger] texts(a@)[j] == texts(b@)[j],
        decreases a.len() - i,
    {
        if !same_text(a[i].as_str(), b[i].as_str()) {
            assert(texts(a@)[i as int] != texts(b@)[i as int]);
            return false;
        }
        i += 1;
    }
    assert(texts(a@) =~= texts(b@));
    true
}

/// Whether the bytes of `part` stand in `whole` from byte `i` on.
fn bytes_at(whole: &[u8], part: &[u8], i: usize) -> (found: bool)
    requires
        i + part.len() <= whole.len(),
    ensures
        found == (whole@.subrange(i as int, i + part@.len()) == part@),
{
    let mut j: usize = 0;
    while j < part.len()
        invariant
            i + part.len() <= whole.len(),
            j <= part.len(),
            forall|k: int| 0 <= k < j ==> whole@[i + k] == part@[k],
        decreases part.len() - j,
    {
        if whole[i + j] != part[j] {
            assert(whole@.subrange(i as int, i + part@.len())[j as int] != part@[j as int]);
            return false;
        }
        j += 1;
    }
    assert(whole@.subrange(i as int, i + part@.len()) =~= part@);
    true
}

/// Where the bytes of a part stand among the bytes of a text, its characters
/// stand among the characters.
proof fn lemma_bytes_to_chars(s: Text, part: Text, i: int) -> (k: int)
    requires
        0 < part.len(),
        0 <= i,
        i + encode_utf8(part).len() <= encode_utf8(s).len(),
        encode_utf8(s).subrange(i, i + encode_utf8(part).len()) == encode_utf8(part),
    ensures
        occurs_at(s, part, k),
        encode_utf8(s.take(k)).len() == i,
        encode_utf8(s.take(k + part.len())).len() == i + encode_utf8(part).len(),
{
    let bs = encode_utf8(s);
    let bp = encode_utf8(part);
    utf8_facts::lemma_encode_nonempty(part);
    assert(bs[i] == bs.subrange(i, i + bp.len())[0]);
    let k = utf8_facts::lemma_boundary_chars(s, i);
    assert(bs.skip(i).take(bp.len() as int) =~= bs.subrange(i, i + bp.len()));
    utf8_facts::lemma_prefix_chars(s.skip(k), part);
    assert(s.subrange(k, k + part.len()) =~= s.skip(k).take(part.len() as int));
    utf8_facts::lemma_encode_concat(s.take(k), part);
    assert(s.take(k) + part =~= s.take(k + part.len())) by {
        assert forall|j: int| 0 <= j < part.len() implies s[k + j] == part[j] by {
            assert(s.skip(k).take(part.len() as int)[j] == part[j]);
        }
    }
    k
}

/// Where the characters of a part stand, its bytes stand.
proof fn lemma_chars_to_bytes(s: Text, part: Text, k: int)
    requires
        occurs_at(s, part, k),
    ensures
        encode_utf8(s.take(k)).len() + encode_utf8(part).len() <= encode_utf8(s).len(),
        encode_utf8(s).subrange(
            encode_utf8(s.take(k)).len() as int,
            (encode_utf8(s.take(k)).len() + encode_utf8(part).len()) as int,
        ) == encode_utf8(part),
{
    let rest = s.skip(k + part.len());
    utf8_facts::lemma_encode_concat(s.take(k), part);
    utf8_facts::lemma_encode_concat(s.take(k) + part, rest);
    assert(s.take(k) + part + rest =~= s) by {
        assert forall|j: int| 0 <= j < part.len() implies s[k + j] == part[j] by {
            assert(s.subrange(k, k + part.len())[j] == part[j]);
        }
    }
    let i = encode_utf8(s.take(k)).len() as int;
    assert(encode_utf8(s).subrange(i, i + encode_utf8(part).len()) =~= encode_utf8(part));
}

/// The bytes at which the leftmost `part` starts and ends, with its position
/// among the characters.
fn find_text(s: &str, part: &str) -> (found: Option<(usize, usize, Ghost<int>)>)
    requires
        part@.len() > 0,
    ensures
        found is None <==> !contains_text(s@, part@),
        found matches Some((start, end, k)) ==> {
            &&& first_at(s@, part@, k@)
            &&& encode_utf8(s@.take(k@)).len() == start
            &&& encode_utf8(s@.take(k@ + part@.len())).len() == end
        },
{
    let whole = s.as_bytes();
    let bytes = part.as_bytes();
    if bytes.len() > whole.len() {
        proof {
            if contains_text(s@, part@) {
                let k = choose|k: int| occurs_at(s@, part@, k);
                lemma_chars_to_bytes(s@, part@, k);
            }
        }
        return None;
    }
    let last: usize = whole.len() - bytes.len();
    let mut i: usize = 0;
    while i <= last
        invariant
            whole@ == encode_utf8(s@),
            bytes@ == encode_utf8(part@),
            part@.len() > 0,
            last == whole.len() - bytes.len(),
            bytes.len() > 0,
            i <= last + 1,
            forall|j: int|
                0 <= j < i ==> #[trigger] whole@.subrange(j, j + bytes@.len()) != bytes@,
        decreases last + 1 - i,
    {
        if bytes_at(whole, bytes, i) {
            let ghost k = lemma_bytes_to_chars(s@, part@, i as int);
            proof {
                assert forall|j: int| 0 <= j < k implies !occurs_at(s@, part@, j) by {
                    if occurs_at(s@, part@, j) {
                        lemma_chars_to_bytes(s@, part@, j);
                        utf8_facts::lemma_prefix_len(s@, j, k);
                        let b = encode_utf8(s@.take(j)).len() as int;
                        assert(whole@.subrange(b, b + bytes@.len()) == bytes@);
                    }
                }
            }
            return Some((i, i + bytes.len(), Ghost(k)));
        }
        i += 1;
    }
    proof {
        if contains_text(s@, part@) {
            let k = choose|k: int| occurs_at(s@, part@, k);
            lemma_chars_to_bytes(s@, part@, k);
            let b = encode_utf8(s@.take(k)).len() as int;
            assert(whole@.subrange(b, b + bytes@.len()) == bytes@);
        }
    }
    None
}

/// Cuts a string after the bytes of its first `k` characters.
fn cut<'a>(s: &'a str, i: usize, Ghost(k): Ghost<int>) -> (parts: (&'a str, &'a str))
    requires
        0 <= k <= s@.len(),
        encode_utf8(s@.take(k)).len() == i,
    ensures
        parts.0@ == s@.take(k),
        parts.1@ == s@.skip(k),
{
    proof {
        utf8_facts::lemma_prefix_boundary(s@, k);
    }
    let parts = s.split_at(i);
    proof {
        assert(parts.0.spec_bytes() =~= encode_utf8(s@.take(k)));
        assert(parts.1.spec_bytes() =~= encode_utf8(s@.skip(k)));
        utf8_facts::lemma_encode_injective(parts.0@, s@.take(k));
        utf8_facts::lemma_encode_injective(parts.1@, s@.skip(k));
    }
    parts
}

/// Whether the string holds `part`.
pub fn contains(s: &str, part: &str) -> (found: bool)
    ensures
        found == contains_text(s@, part@),
{
    if part.is_empty() {
        assert(s@.subrange(0, 0) =~= part@);
        assert(occurs_at(s@, part@, 0));
        return true;
    }
    match find_text(s, part) {
        Some(_) => {
            proof {
                let k = choose|k: int| first_at(s@, part@, k);
                assert(contains_text(s@, part@));
            }
            true
        },
        None => false,
    }
}

/// What stands before and after the leftmost separator.
pub fn split_once<'a>(s: &'a str, separator: &str) -> (parts: Option<(&'a str, &'a str)>)
    requires
        separator@.len() > 0,
    ensures
        parts is Some <==> split_first(s@, separator@) is Some,
        parts matches Some((before, after)) ==> split_first(s@, separator@) == Some(
            (before@, after@),
        ),
{
    match find_text(s, separator) {
        Some((start, end, k)) => {
            let (before, _) = cut(s, start, k);
            let (_, after) = cut(s, end, Ghost(k@ + separator@.len()));
            proof {
                lemma_split_first(s@, separator@, k@);
            }
            Some((before, after))
        },
        None => None,
    }
}

/// The string without the line ends that close it.
pub fn trim_line_end<'a>(s: &'a str) -> (trimmed: &'a str)
    ensures
        trimmed@ == without_line_end(s@),
{
    let bytes = s.as_bytes();
    let mut n: usize = bytes.len();
    let ghost mut k: int = s@.len() as int;
    proof {
        assert(s@.take(k) =~= s@);
    }
    while n > 0 && (bytes[n - 1] == 10 || bytes[n - 1] == 13)
        invariant
            bytes@ == encode_utf8(s@),
            n <= bytes.len(),
            0 <= k <= s@.len(),
            encode_utf8(s@.take(k)) == bytes@.take(n as int),
            without_line_end(s@.take(k)) == without_line_end(s@),
        decreases n,
    {
        proof {
            let t = s@.take(k);
            assert(encode_utf8(t).len() == n);
            assert(t.len() > 0);
            assert(encode_utf8(t).last() == bytes@[n - 1]);
            utf8_facts::lemma_last_byte(t, '\n');
            utf8_facts::lemma_last_byte(t, '\r');
            k = k - 1;
            assert(t.drop_last() =~= s@.take(k));
            assert(encode_utf8(s@.take(k)) =~= bytes@.take(n - 1));
        }
        n -= 1;
    }
    proof {
        let t = s@.take(k);
        if t.len() > 0 {
            utf8_facts::lemma_last_byte(t, '\n');
            utf8_facts::lemma_last_byte(t, '\r');
            assert(encode_utf8(t).last() == bytes@[n - 1]);
        }
    }
    cut(s, n, Ghost(k)).0
}

/// The string without the copies of `prefix` that start it.
pub fn trim_prefixes<'a>(s: &'a str, prefix: &str) -> (trimmed: &'a str)
    requires
        prefix@.len() > 0,
    ensures
        trimmed@ == without_prefixes(s@, prefix@),
{
    let mut rest: &'a str = s;
    proof {
        utf8_facts::lemma_encode_nonempty(prefix@);
    }
    loop
        invariant
            prefix@.len() > 0,
            encode_utf8(prefix@).len() > 0,
            without_prefixes(rest@, prefix@) == without_prefixes(s@, prefix@),
        decreases rest@.len(),
    {
        let bytes = rest.as_bytes();
        let start = prefix.as_bytes();
        if start.len() > bytes.len() || !bytes_at(bytes, start, 0) {
            proof {
                if occurs_at(rest@, prefix@, 0) {
                    lemma_chars_to_bytes(rest@, prefix@, 0);
                    assert(rest@.take(0) =~= Seq::<char>::empty());
                }
            }
            return rest;
        }
        let ghost k = lemma_bytes_to_chars(rest@, prefix@, 0);
        proof {
            if k > 0 {
                utf8_facts::lemma_prefix_len(rest@, 0, k);
            }
            assert(occurs_at(rest@, prefix@, 0));
        }
        rest = cut(rest, start.len(), Ghost(prefix@.len() as int)).1;
    }
}

/// Whether the character is white space.
pub fn is_white_space(c: char) -> (yes: bool)
    ensures
        yes == white_space(c),
{
    let u: u32 = c as u32;
    (0x9 <= u && u <= 0xd) || u == 0x20 || u == 0x85 || u == 0xa0 || u == 0x1680 || (0x2000 <= u
        && u <= 0x200a) || u == 0x2028 || u == 0x2029 || u == 0x202f || u == 0x205f || u == 0x3000
}

/// Whether every character is white space.
pub fn is_blank(s: &str) -> (yes: bool)
    ensures
        yes == blank(s@),
{
    for c in it: s.chars()
        invariant
            it.seq() == s@,
            forall|i: int| 0 <= i < it.index() ==> white_space(#[trigger] s@[i]),
    {
        if !is_white_space(c) {
            return false;
        }
    }
    true
}

/// The texts of a list of strings are those of its strings, one by one.
pub proof fn law_texts(strings: Seq<String>, i: int)
    ensures
        texts(strings).len() == strings.len(),
        0 <= i < strings.len() ==> texts(strings)[i] == strings[i]@,
{
}

/// A part stands at a position just where its characters are those of the whole from there
/// on.
pub proof fn law_occurs_at(whole: Text, part: Text, i: int)
    ensures
        occurs_at(whole, part, i) <==> {
            &&& 0 <= i
            &&& i + part.len() <= whole.len()
            &&& forall|j: int| 0 <= j < part.len() ==> whole[i + j] == #[trigger] part[j]
        },
{
    if 0 <= i && i + part.len() <= whole.len() {
        let there = whole.subrange(i, i + part.len());
        assert forall|j: int| 0 <= j < part.len() implies #[trigger] there[j] == whole[i + j] by {}
        if occurs_at(whole, part, i) {
            assert forall|j: int| 0 <= j < part.len() implies whole[i + j] == #[trigger] part[j] by {
                assert(there[j] == part[j]);
            }
        } else if forall|j: int| 0 <= j < part.len() ==> whole[i + j] == #[trigger] part[j] {
            assert forall|j: int| 0 <= j < part.len() implies there[j] == part[j] by {}
            assert(there =~= part);
        }
    }
}

/// A text holds another just where it is that other with something, or nothing, on both
/// sides.
pub proof fn law_contains_text(whole: Text, part: Text)
    ensures
        contains_text(whole, part) <==> exists|before: Text, after: Text|
            whole == #[trigger] (before + part + after),
{
    if contains_text(whole, part) {
        let i = choose|i: int| occurs_at(whole, part, i);
        law_occurs_at(whole, part, i);
        let before = whole.take(i);
        let after = whole.skip(i + part.len());
        assert(whole =~= before + part + after);
    }
    if exists|before: Text, after: Text| whole == #[trigger] (before + part + after) {
        let (before, after) = choose|before: Text, after: Text|
            whole == #[trigger] (before + part + after);
        law_occurs_at(whole, part, before.len() as int);
        assert(occurs_at(whole, part, before.len() as int));
    }
}

/// A text is parted into what stands before and after a separator just where it is the two
/// with the separator between them, and the separator stands nowhere before that.
pub proof fn law_split_first(whole: Text, separator: Text, before: Text, after: Text)
    ensures
        split_first(whole, separator) == Some((before, after)) <==> {
            &&& whole == before + separator + after
            &&& forall|j: int| 0 <= j < before.len() ==> !#[trigger] occurs_at(whole, separator, j)
        },
        split_first(whole, separator) is None <==> !contains_text(whole, separator),
{
    lemma_split_parts(whole, separator);
    if whole == before + separator + after && forall|j: int|
        0 <= j < before.len() ==> !#[trigger] occurs_at(whole, separator, j) {
        let i = before.len() as int;
        law_occurs_at(whole, separator, i);
        assert(occurs_at(whole, separator, i));
        lemma_split_first(whole, separator, i);
        assert(whole.take(i) =~= before);
        assert(whole.skip(i + separator.len()) =~= after);
    }
}

/// A text without its line ends does not close with one, and what was taken off are line
/// ends alone.
pub proof fn law_without_line_end(s: Text)
    ensures
        ({
            let rest = without_line_end(s);
            &&& rest.len() > 0 ==> rest.last() != '\n' && rest.last() != '\r'
            &&& rest.is_prefix_of(s)
            &&& forall|i: int|
                rest.len() <= i < s.len() ==> #[trigger] s[i] == '\n' || s[i] == '\r'
        }),
    decreases s.len(),
{
    if s.len() > 0 && (s.last() == '\n' || s.last() == '\r') {
        law_without_line_end(s.drop_last());
        let rest = without_line_end(s);
        assert(s[s.len() - 1] == s.last());
        assert forall|i: int| rest.len() <= i < s.len() implies #[trigger] s[i] == '\n' || s[i]
            == '\r' by {
            if i < s.len() - 1 {
                assert(s[i] == s.drop_last()[i]);
            }
        }
    }
}

/// A text without the copies of a prefix is the same with one more copy before it, and is
/// the text itself where it does not start with the prefix.
pub proof fn law_without_prefixes(s: Text, prefix: Text)
    requires
        prefix.len() > 0,
    ensures
        without_prefixes(prefix + s, prefix) == without_prefixes(s, prefix),
        !prefix.is_prefix_of(s) ==> without_prefixes(s, prefix) == s,
{
    let longer = prefix + s;
    let n = prefix.len() as int;
    assert(longer.subrange(0, n) =~= prefix);
    assert(occurs_at(longer, prefix, 0));
    assert(longer.skip(n) =~= s);
    if occurs_at(s, prefix, 0) {
        assert(s.subrange(0, n) == prefix);
        assert(prefix.is_prefix_of(s));
    }
}

/// A text is blank just where it holds nothing but white space.
pub proof fn law_blank(s: Text)
    ensures
        blank(s) <==> forall|c: char| #[trigger] s.contains(c) ==> white_space(c),
{
    if blank(s) {
        assert forall|c: char| #[trigger] s.contains(c) implies white_space(c) by {
            let i = s.index_of(c);
            assert(s[i] == c);
        }
    } else if forall|c: char| #[trigger] s.contains(c) ==> white_space(c) {
        assert forall|i: int| 0 <= i < s.len() implies white_space(#[trigger] s[i]) by {
            assert(s.contains(s[i]));
        }
    }
}

/// A text comes before every longer one that starts with it, and after none of them.
pub proof fn law_prefix_before(s: Text, more: Text)
    requires
        more.len() > 0,
    ensures
        text_before(s, s + more),
        !text_before(s + more, s),
{
    utf8_facts::lemma_encode_concat(s, more);
    utf8_facts::lemma_encode_nonempty(more);
    let (a, b) = (encode_utf8(s), encode_utf8(s + more));
    assert(smaller_at(a, b, a.len() as int));
    if text_before(s + more, s) {
        lemma_before_transitive(s, s + more, s);
        lemma_before_irreflexive(s);
    }
}

/// Where the bytes of two texts agree up to a position, the smaller byte there decides.
pub proof fn law_byte_decides(a: Text, b: Text, i: int)
    requires
        0 <= i < encode_utf8(a).len(),
        i < encode_utf8(b).len(),
        forall|j: int| 0 <= j < i ==> #[trigger] encode_utf8(a)[j] == encode_utf8(b)[j],
        encode_utf8(a)[i] < encode_utf8(b)[i],
    ensures
        text_before(a, b),
        !text_before(b, a),
{
    assert(smaller_at(encode_utf8(a), encode_utf8(b), i));
    if text_before(b, a) {
        lemma_before_transitive(a, b, a);
        lemma_before_irreflexive(a);
    }
}

} // verus!
