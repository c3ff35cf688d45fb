//! The language server's state and decisions: open documents, settings,
//! notifications, and the answers to hover and code-action requests.

use crate::bignat::{big_to_str_radix, radix_string};
use crate::literal::{hex_digit_text, is_radix_digit, lemma_radix_string_digits};
use crate::locate::{lemma_number_hexs, number_at, number_lookup_in_bounds, parse_number_at_position};
use crate::bitmacro::{
    bit_macro_chars, bit_macro_text, consecutive_set_bit_range, format_size_macro,
    genmask_macro_chars, genmask_macro_text, highest_set_bit, is_power_of_two, power_of_two_test,
    set_bit_range, size_macro,
};
use crate::bignat::{big_eq, bit_length, BigNat};
use crate::literal::LiteralKind;
use crate::normalize::{
    lemma_plain_heading, plain_text, prefixed_shape, promoted_heading, promoted_hover_rows,
    promoted_rows, rows_view,
};
use crate::render::{
    ascii_text, compute_ascii, compute_num_le, hover_table_header, hover_table_row,
    label_ascii, label_binary, label_chars, label_dec_be, label_dec_le, label_hex, label_macro,
    label_octal, lemma_ascii_grouping_ok, lemma_ascii_pair_cuts, num_le_value, prefix_binary,
    prefix_hex, prefix_octal, row_formattable, table_line, Row, RowView, Settings,
};
use crate::scan::{NumberView, ParsedNumber, Position, TextRange};
use crate::text::{all_ascii, append_chars, chars_equal, chars_of, string_of};
use vstd::prelude::*;

verus! {

/// The parts of a JSON value that the settings are read from.
pub enum JsonValue {
    /// A boolean.
    Bool(bool),
    /// An object: its members in order.
    Object(Vec<(String, JsonValue)>),
    /// Any other value (null, number, string, array).
    Other,
}

/// The value of the first member named `key`, from member `k` on.
pub open spec fn member_from(members: Seq<(String, JsonValue)>, key: Seq<char>, k: int) -> Option<
    JsonValue,
>
    decreases members.len() - k,
{
    if k < 0 || k >= members.len() {
        None
    } else if members[k].0@ == key {
        Some(members[k].1)
    } else {
        member_from(members, key, k + 1)
    }
}

/// The member of `value` named `key`, if `value` is an object that has one.
pub open spec fn json_get(value: JsonValue, key: Seq<char>) -> Option<JsonValue> {
    match value {
        JsonValue::Object(members) => member_from(members@, key, 0),
        _ => None,
    }
}

/// `settings`
pub open spec fn key_settings() -> Seq<char> {
    seq!['s', 'e', 't', 't', 'i', 'n', 'g', 's']
}

/// `groupSpacing`
pub open spec fn key_group_spacing() -> Seq<char> {
    seq!['g', 'r', 'o', 'u', 'p', 'S', 'p', 'a', 'c', 'i', 'n', 'g']
}

/// Settings read from a configuration value: each is present only when given.
#[derive(Clone, Copy, PartialEq, Eq, Debug, Structural)]
pub struct NormalizedSettings {
    pub group_spacing: Option<bool>,
}

/// What `normalize_settings` returns: for an object, `groupSpacing` as a boolean,
/// read from its `settings` member when that is an object, else from the object
/// itself; nothing for any other value.
pub open spec fn normalized_settings(value: JsonValue) -> NormalizedSettings {
    if !(value is Object) {
        NormalizedSettings { group_spacing: None }
    } else {
        let source = match json_get(value, key_settings()) {
            Some(JsonValue::Object(m)) => JsonValue::Object(m),
            _ => value,
        };
        NormalizedSettings {
            group_spacing: match json_get(source, key_group_spacing()) {
                Some(JsonValue::Bool(b)) => Some(b),
                _ => None,
            },
        }
    }
}

fn member<'a>(members: &'a Vec<(String, JsonValue)>, key: &[char]) -> (r: Option<&'a JsonValue>)
    ensures
        r matches Some(v) ==> member_from(members@, key@, 0) == Some(*v),
        r is None ==> member_from(members@, key@, 0) is None,
{
    let mut k: usize = 0;
    while k < members.len()
        invariant
            k <= members.len(),
            member_from(members@, key@, 0) == member_from(members@, key@, k as int),
        decreases members.len() - k,
    {
        let name = chars_of(members[k].0.as_str());
        if chars_equal(name.as_slice(), key) {
            return Some(&members[k].1);
        }
        k += 1;
    }
    None
}

/// Reads the settings from a configuration value.
pub fn normalize_settings(value: &JsonValue) -> (r: NormalizedSettings)
    ensures
        r == normalized_settings(*value),
{
    let members = match value {
        JsonValue::Object(m) => m,
        _ => return NormalizedSettings { group_spacing: None },
    };
    let settings_key = vec!['s', 'e', 't', 't', 'i', 'n', 'g', 's'];
    assert(settings_key@ =~= key_settings());
    let spacing_key = vec!['g', 'r', 'o', 'u', 'p', 'S', 'p', 'a', 'c', 'i', 'n', 'g'];
    assert(spacing_key@ =~= key_group_spacing());
    let source_members = match member(members, settings_key.as_slice()) {
        Some(JsonValue::Object(inner)) => inner,
        _ => members,
    };
    match member(source_members, spacing_key.as_slice()) {
        Some(JsonValue::Bool(b)) => NormalizedSettings { group_spacing: Some(*b) },
        _ => NormalizedSettings { group_spacing: None },
    }
}

/// Whether no URI occurs twice among `e`.
pub open spec fn unique_keys(e: Seq<(String, String)>) -> bool {
    forall|i: int, j: int|
        0 <= i < e.len() && 0 <= j < e.len() && #[trigger] e[i].0@ == #[trigger] e[j].0@ ==> i == j
}

/// Whether some entry of `e` has URI `k`.
pub open spec fn has_key(e: Seq<(String, String)>, k: Seq<char>) -> bool {
    exists|i: int| 0 <= i < e.len() && #[trigger] e[i].0@ == k
}

/// The index of an entry of `e` with URI `k`.
pub open spec fn key_index(e: Seq<(String, String)>, k: Seq<char>) -> int {
    choose|i: int| 0 <= i < e.len() && #[trigger] e[i].0@ == k
}

/// The text of each URI among the entries `e`.
pub open spec fn entries_map(e: Seq<(String, String)>) -> Map<Seq<char>, Seq<char>> {
    Map::new(|k: Seq<char>| has_key(e, k), |k: Seq<char>| e[key_index(e, k)].1@)
}

/// With unique URIs, the entry found for the URI of entry `i` is entry `i`.
pub proof fn lemma_key_index(e: Seq<(String, String)>, i: int)
    requires
        unique_keys(e),
        0 <= i < e.len(),
    ensures
        has_key(e, e[i].0@),
        key_index(e, e[i].0@) == i,
{
    let k = e[i].0@;
    assert(has_key(e, k));
    let c = key_index(e, k);
    assert(e[c].0@ == e[i].0@);
}

/// Replacing the entry at `i` by one with the same URI sets that URI's text.
pub proof fn lemma_entries_set(e: Seq<(String, String)>, i: int, p: (String, String))
    requires
        unique_keys(e),
        0 <= i < e.len(),
        p.0@ == e[i].0@,
    ensures
        unique_keys(e.update(i, p)),
        entries_map(e.update(i, p)) == entries_map(e).insert(p.0@, p.1@),
{
    let n = e.update(i, p);
    assert forall|a: int, b: int|
        0 <= a < n.len() && 0 <= b < n.len() && #[trigger] n[a].0@ == #[trigger] n[b].0@ implies a
        == b by {
        assert(n[a].0@ == e[a].0@);
        assert(n[b].0@ == e[b].0@);
    }
    lemma_key_index(n, i);
    assert forall|k: Seq<char>| #[trigger] has_key(n, k) == (has_key(e, k) || k == p.0@) by {
        if has_key(e, k) {
            let c = key_index(e, k);
            assert(n[c].0@ == e[c].0@);
        }
        if has_key(n, k) {
            let c = key_index(n, k);
            assert(n[c].0@ == e[c].0@);
        }
    }
    assert forall|k: Seq<char>| has_key(n, k) && k != p.0@ implies #[trigger] n[key_index(n, k)].1@
        == e[key_index(e, k)].1@ by {
        let c = key_index(n, k);
        assert(c != i);
        assert(e[c].0@ == k);
        lemma_key_index(e, c);
    }
    assert(entries_map(n) =~= entries_map(e).insert(p.0@, p.1@));
}

/// Adding an entry with a new URI sets that URI's text.
pub proof fn lemma_entries_push(e: Seq<(String, String)>, p: (String, String))
    requires
        unique_keys(e),
        forall|i: int| 0 <= i < e.len() ==> #[trigger] e[i].0@ != p.0@,
    ensures
        unique_keys(e.push(p)),
        entries_map(e.push(p)) == entries_map(e).insert(p.0@, p.1@),
{
    let n = e.push(p);
    assert forall|a: int, b: int|
        0 <= a < n.len() && 0 <= b < n.len() && #[trigger] n[a].0@ == #[trigger] n[b].0@ implies a
        == b by {
        if a < e.len() && b < e.len() {
            assert(n[a] == e[a] && n[b] == e[b]);
        } else if a < e.len() {
            assert(n[a] == e[a]);
        } else if b < e.len() {
            assert(n[b] == e[b]);
        }
    }
    lemma_key_index(n, e.len() as int);
    assert forall|k: Seq<char>| #[trigger] has_key(n, k) == (has_key(e, k) || k == p.0@) by {
        if has_key(e, k) {
            let c = key_index(e, k);
            assert(n[c] == e[c]);
        }
        if has_key(n, k) && k != p.0@ {
            let c = key_index(n, k);
            assert(c < e.len());
            assert(n[c] == e[c]);
        }
    }
    assert forall|k: Seq<char>| has_key(n, k) && k != p.0@ implies #[trigger] n[key_index(n, k)].1@
        == e[key_index(e, k)].1@ by {
        let c = key_index(n, k);
        assert(c < e.len());
        assert(n[c] == e[c]);
        lemma_key_index(e, c);
    }
    assert(entries_map(n) =~= entries_map(e).insert(p.0@, p.1@));
}

/// Removing the entry at `i` forgets its URI.
pub proof fn lemma_entries_remove(e: Seq<(String, String)>, i: int)
    requires
        unique_keys(e),
        0 <= i < e.len(),
    ensures
        unique_keys(e.remove(i)),
        entries_map(e.remove(i)) == entries_map(e).remove(e[i].0@),
{
    let n = e.remove(i);
    let key = e[i].0@;
    assert forall|a: int, b: int|
        0 <= a < n.len() && 0 <= b < n.len() && #[trigger] n[a].0@ == #[trigger] n[b].0@ implies a
        == b by {
        let oa = if a < i { a } else { a + 1 };
        let ob = if b < i { b } else { b + 1 };
        assert(n[a] == e[oa]);
        assert(n[b] == e[ob]);
    }
    assert forall|k: Seq<char>| #[trigger] has_key(n, k) == (has_key(e, k) && k != key) by {
        if has_key(e, k) && k != key {
            let c = key_index(e, k);
            assert(c != i);
            let nc = if c < i { c } else { c - 1 };
            assert(n[nc] == e[c]);
        }
        if has_key(n, k) {
            let c = key_index(n, k);
            let oc = if c < i { c } else { c + 1 };
            assert(n[c] == e[oc]);
            assert(oc != i);
        }
    }
    assert forall|k: Seq<char>| has_key(n, k) && k != key implies #[trigger] n[key_index(n, k)].1@
        == e[key_index(e, k)].1@ by {
        let c = key_index(n, k);
        let oc = if c < i { c } else { c + 1 };
        assert(n[c] == e[oc]);
        lemma_key_index(e, oc);
    }
    assert(entries_map(n) =~= entries_map(e).remove(key));
}

/// The open documents: their text by URI.
pub struct DocumentStore {
    entries: Vec<(String, String)>,
}

impl DocumentStore {
    /// No URI occurs twice.
    #[verifier::type_invariant]
    spec fn keys_unique(self) -> bool {
        unique_keys(self.entries@)
    }

}

impl View for DocumentStore {
    type V = Map<Seq<char>, Seq<char>>;

    closed spec fn view(&self) -> Map<Seq<char>, Seq<char>> {
        entries_map(self.entries@)
    }
}

impl DocumentStore {
    /// An empty store.
    pub fn new() -> (r: DocumentStore)
        ensures
            r@ == Map::<Seq<char>, Seq<char>>::empty(),
    {
        let r = DocumentStore { entries: Vec::new() };
        assert(r@ =~= Map::<Seq<char>, Seq<char>>::empty());
        r
    }

    fn find(&self, uri: &String) -> (r: Option<usize>)
        ensures
            r matches Some(i) ==> i < self.entries.len() && self.entries@[i as int].0@ == uri@,
            r is None ==> forall|i: int|
                0 <= i < self.entries.len() ==> #[trigger] self.entries@[i].0@ != uri@,
    {
        let mut k: usize = 0;
        while k < self.entries.len()
            invariant
                k <= self.entries.len(),
                forall|i: int| 0 <= i < k ==> #[trigger] self.entries@[i].0@ != uri@,
            decreases self.entries.len() - k,
        {
            if self.entries[k].0 == *uri {
                return Some(k);
            }
            k += 1;
        }
        None
    }

    /// The text of the document at `uri`, if it is open.
    pub fn get(&self, uri: &str) -> (r: Option<&String>)
        ensures
            r matches Some(t) ==> self@.contains_key(uri@) && self@[uri@] == t@,
            r is None ==> !self@.contains_key(uri@),
    {
        proof {
            use_type_invariant(self);
        }
        let key = String::from_str(uri);
        match self.find(&key) {
            Some(i) => {
                proof {
                    lemma_key_index(self.entries@, i as int);
                }
                Some(&self.entries[i].1)
            },
            None => {
                assert(!has_key(self.entries@, uri@));
                None
            },
        }
    }

    /// Stores `text` as the document at `uri`, replacing what was there.
    pub fn insert(&mut self, uri: String, text: String)
        ensures
            final(self)@ == old(self)@.insert(uri@, text@),
    {
        proof {
            use_type_invariant(&*self);
        }
        let ghost old_entries = self.entries@;
        let ghost pair = (uri, text);
        let found = self.find(&uri);
        let mut entries: Vec<(String, String)> = Vec::new();
        std::mem::swap(&mut entries, &mut self.entries);
        match found {
            Some(i) => {
                proof {
                    lemma_entries_set(old_entries, i as int, pair);
                }
                entries.set(i, (uri, text));
            },
            None => {
                proof {
                    lemma_entries_push(old_entries, pair);
                }
                entries.push((uri, text));
            },
        }
        self.entries = entries;
    }

    /// Forgets the document at `uri`.
    pub fn remove(&mut self, uri: &str)
        ensures
            final(self)@ == old(self)@.remove(uri@),
    {
        proof {
            use_type_invariant(&*self);
        }
        let ghost old_entries = self.entries@;
        let key = String::from_str(uri);
        match self.find(&key) {
            Some(i) => {
                proof {
                    lemma_entries_remove(old_entries, i as int);
                }
                let mut entries: Vec<(String, String)> = Vec::new();
                std::mem::swap(&mut entries, &mut self.entries);
                entries.remove(i);
                self.entries = entries;
            },
            None => {
                assert(!has_key(old_entries, uri@));
                assert(self@ =~= self@.remove(uri@));
            },
        }
    }
}

/// The rows of the hover for a number: binary, octal, decimal read big- and
/// little-endian, hexadecimal, the macro when there is one, and the bytes as text.
pub open spec fn hover_rows(p: NumberView) -> Seq<RowView> {
    let base = seq![
        RowView { label: label_binary(), value: prefix_binary() + radix_string(p.value, 2) },
        RowView { label: label_octal(), value: prefix_octal() + radix_string(p.value, 8) },
        RowView { label: label_dec_be(), value: radix_string(p.value, 10) },
        RowView { label: label_dec_le(), value: radix_string(num_le_value(p.hexs), 10) },
        RowView { label: label_hex(), value: prefix_hex() + p.hexs },
    ];
    let with_macro = match p.macro_text {
        Some(m) => base.push(RowView { label: label_macro(), value: m }),
        None => base,
    };
    with_macro.push(RowView { label: label_ascii(), value: ascii_text(p.hexs) })
}

/// Lines joined with `\n` between them.
pub open spec fn joined_lines(lines: Seq<Seq<char>>) -> Seq<char>
    decreases lines.len(),
{
    if lines.len() == 0 {
        Seq::empty()
    } else if lines.len() == 1 {
        lines[0]
    } else {
        joined_lines(lines.drop_last()) + seq!['\n'] + lines.last()
    }
}

/// The line between the table header and its body: `\n| :--- | :--- |\n`.
pub open spec fn table_rule() -> Seq<char> {
    seq!['\n', '|', ' ', ':', '-', '-', '-', ' ', '|', ' ', ':', '-', '-', '-', ' ', '|', '\n']
}

/// The Markdown of the hover for a number: the row that shows the hovered word
/// as the header (empty when none does), then the other rows, each escaped and
/// formatted.
pub open spec fn hover_markdown(p: NumberView, settings: Settings) -> Seq<char> {
    hover_markdown_of(p.word, hover_rows(p), settings)
}

/// What the hover answers for the document at `uri`: nothing when the document
/// is not open or no number is under the cursor; else the Markdown and the
/// range of the number.
pub open spec fn hover_answer(
    docs: Map<Seq<char>, Seq<char>>,
    settings: Settings,
    uri: Seq<char>,
    pos: Position,
) -> Option<(Seq<char>, TextRange)> {
    if !docs.contains_key(uri) {
        None
    } else {
        match number_at(docs[uri], pos) {
            None => None,
            Some(p) => Some((hover_markdown(p, settings), p.range)),
        }
    }
}

/// The answer to a hover request.
pub struct HoverResult {
    pub markdown: String,
    pub range: TextRange,
}

proof fn lemma_hex_text_plain(s: Seq<char>)
    requires
        forall|i: int| 0 <= i < s.len() ==> is_radix_digit(#[trigger] s[i], 16),
    ensures
        plain_text(s),
        all_ascii(s),
{
    assert forall|i: int| 0 <= i < s.len() implies ('0' <= #[trigger] s[i] <= '9' || 'a' <= s[i]
        <= 'z' || 'A' <= s[i] <= 'Z') && '\0' <= s[i] <= '\u{7f}' by {
        assert(is_radix_digit(s[i], 16));
    }
}

proof fn lemma_radix_plain(v: nat, radix: nat)
    requires
        radix == 2 || radix == 8 || radix == 10 || radix == 16,
    ensures
        plain_text(radix_string(v, radix)),
        all_ascii(radix_string(v, radix)),
        radix_string(v, radix).len() > 0,
{
    lemma_radix_string_digits(v, radix);
    let s = radix_string(v, radix);
    assert forall|i: int| 0 <= i < s.len() implies ('0' <= #[trigger] s[i] <= '9' || 'a' <= s[i]
        <= 'z' || 'A' <= s[i] <= 'Z') && '\0' <= s[i] <= '\u{7f}' by {
        assert(is_radix_digit(s[i], radix));
    }
}

proof fn lemma_prefixed_plain(c: char, s: Seq<char>)
    requires
        c == 'b' || c == 'o' || c == 'x',
        plain_text(s),
        all_ascii(s),
        s.len() > 0,
    ensures
        plain_text(seq!['0', c] + s),
        all_ascii(seq!['0', c] + s),
        prefixed_shape(seq!['0', c] + s),
{
    let t = seq!['0', c] + s;
    assert forall|i: int| 0 <= i < t.len() implies ('0' <= #[trigger] t[i] <= '9' || 'a' <= t[i]
        <= 'z' || 'A' <= t[i] <= 'Z') && '\0' <= t[i] <= '\u{7f}' by {
        if i >= 2 {
            assert(t[i] == s[i - 2]);
        }
    }
}

/// The rows with a grouped value are number rows: ASCII letters and digits,
/// prefixed as their label says.
pub open spec fn number_row(r: RowView) -> bool {
    &&& (r.label == label_binary() ==> plain_text(r.value) && prefixed_shape(r.value))
    &&& (r.label == label_octal() ==> plain_text(r.value) && prefixed_shape(r.value))
    &&& (r.label == label_hex() ==> plain_text(r.value) && prefixed_shape(r.value))
    &&& (r.label == label_dec_be() || r.label == label_dec_le() ==> plain_text(r.value))
}

proof fn lemma_number_row_formattable(r: RowView)
    requires
        number_row(r),
    ensures
        row_formattable(r),
        row_formattable(RowView { label: r.label, value: promoted_heading(r) }),
{
    let h = RowView { label: r.label, value: promoted_heading(r) };
    assert(all_ascii(prefix_binary()) && all_ascii(prefix_octal()) && all_ascii(prefix_hex())
        && all_ascii(Seq::<char>::empty()));
    assert(label_macro() != label_binary() && label_macro() != label_octal() && label_macro()
        != label_hex() && label_macro() != label_dec_be() && label_macro() != label_dec_le()) by {
        assert(label_macro().len() != label_binary().len());
        assert(label_macro()[0] != label_octal()[0]);
        assert(label_macro().len() != label_hex().len());
        assert(label_macro().len() != label_dec_be().len());
        assert(label_macro().len() != label_dec_le().len());
    }
    if r.label == label_binary() || r.label == label_octal() || r.label == label_hex() || r.label
        == label_dec_be() || r.label == label_dec_le() {
        lemma_plain_heading(r.value);
        assert(all_ascii(r.value)) by {
            assert forall|i: int| 0 <= i < r.value.len() implies '\0' <= #[trigger] r.value[i]
                <= '\u{7f}' by {
                assert(plain_text(r.value));
            }
        }
        if r.label == label_binary() {
            lemma_ascii_grouping_ok(r.value, prefix_binary(), 4);
            lemma_ascii_grouping_ok(h.value, prefix_binary(), 4);
        } else if r.label == label_octal() {
            lemma_ascii_grouping_ok(r.value, prefix_octal(), 3);
            lemma_ascii_grouping_ok(h.value, prefix_octal(), 3);
        } else if r.label == label_hex() {
            lemma_ascii_grouping_ok(r.value, prefix_hex(), 4);
            lemma_ascii_grouping_ok(h.value, prefix_hex(), 4);
        } else {
            lemma_ascii_grouping_ok(r.value, Seq::empty(), 3);
            lemma_ascii_grouping_ok(h.value, Seq::empty(), 3);
        }
    }
}

/// Every hover row, and the header made from any of them, can be formatted.
pub proof fn lemma_hover_rows_formattable(p: NumberView)
    requires
        hex_digit_text(p.hexs),
    ensures
        rows_formattable(hover_rows(p)),
{
    let rows = hover_rows(p);
    lemma_radix_plain(p.value, 2);
    lemma_radix_plain(p.value, 8);
    lemma_radix_plain(p.value, 10);
    lemma_radix_plain(num_le_value(p.hexs), 10);
    lemma_hex_text_plain(p.hexs);
    lemma_prefixed_plain('b', radix_string(p.value, 2));
    lemma_prefixed_plain('o', radix_string(p.value, 8));
    lemma_prefixed_plain('x', p.hexs);
    assert(label_binary() != label_octal() && label_binary() != label_hex() && label_binary()
        != label_dec_be() && label_binary() != label_dec_le()) by {
        assert(label_binary().len() != label_octal().len());
        assert(label_binary().len() != label_hex().len());
        assert(label_binary().len() != label_dec_be().len());
        assert(label_binary().len() != label_dec_le().len());
    }
    assert(label_octal() != label_hex() && label_octal() != label_dec_be() && label_octal()
        != label_dec_le()) by {
        assert(label_octal().len() != label_hex().len());
        assert(label_octal().len() != label_dec_be().len());
        assert(label_octal().len() != label_dec_le().len());
    }
    assert(label_hex() != label_dec_be() && label_hex() != label_dec_le()) by {
        assert(label_hex().len() != label_dec_be().len());
        assert(label_hex().len() != label_dec_le().len());
    }
    assert(label_dec_be() != label_dec_le()) by {
        assert(label_dec_be()[5] != label_dec_le()[5]);
    }
    assert(label_ascii() != label_binary() && label_ascii() != label_octal() && label_ascii()
        != label_hex() && label_ascii() != label_dec_be() && label_ascii() != label_dec_le()) by {
        assert(label_ascii().len() != label_binary().len());
        assert(label_ascii()[0] != label_octal()[0]);
        assert(label_ascii().len() != label_hex().len());
        assert(label_ascii().len() != label_dec_be().len());
        assert(label_ascii().len() != label_dec_le().len());
    }
    assert(label_macro() != label_binary() && label_macro() != label_octal() && label_macro()
        != label_hex() && label_macro() != label_dec_be() && label_macro() != label_dec_le()) by {
        assert(label_macro().len() != label_binary().len());
        assert(label_macro()[0] != label_octal()[0]);
        assert(label_macro().len() != label_hex().len());
        assert(label_macro().len() != label_dec_be().len());
        assert(label_macro().len() != label_dec_le().len());
    }
    assert forall|k: int| 0 <= k < rows.len() implies #[trigger] row_formattable(rows[k])
        && row_formattable(RowView { label: rows[k].label, value: promoted_heading(rows[k]) }) by {
        assert(number_row(rows[k]));
        lemma_number_row_formattable(rows[k]);
    }
}

fn prefixed_value(first: char, second: char, digits: &String) -> (r: String)
    ensures
        r@ == seq![first, second] + digits@,
{
    let mut v: Vec<char> = Vec::new();
    v.push(first);
    v.push(second);
    let d = chars_of(digits.as_str());
    append_chars(&mut v, d.as_slice());
    assert(v@ =~= seq![first, second] + digits@);
    string_of(v.as_slice())
}

fn label_string(kind: u8) -> (r: String)
    requires
        kind < 7,
    ensures
        kind == 0 ==> r@ == label_binary(),
        kind == 1 ==> r@ == label_octal(),
        kind == 2 ==> r@ == label_dec_be(),
        kind == 3 ==> r@ == label_dec_le(),
        kind == 4 ==> r@ == label_hex(),
        kind == 5 ==> r@ == label_macro(),
        kind == 6 ==> r@ == label_ascii(),
{
    let v = label_chars(kind);
    string_of(v.as_slice())
}

/// The server: its settings and open documents.
pub struct Server {
    pub settings: Settings,
    pub documents: DocumentStore,
}

/// A notification from the client, with its parameters read.
pub enum Notification {
    /// A document was opened with this text.
    DidOpen { uri: String, text: String },
    /// A document changed; `change` is the text of its first content change, if any.
    DidChange { uri: String, change: Option<String> },
    /// A document was closed.
    DidClose { uri: String },
    /// The configuration changed.
    DidChangeConfiguration { settings: JsonValue },
    /// Any other notification, or one whose parameters could not be read.
    Other,
}

/// The settings after applying a configuration value: `groupSpacing` replaces
/// the current choice when it is given.
pub open spec fn settings_after(settings: Settings, value: JsonValue) -> Settings {
    match normalized_settings(value).group_spacing {
        Some(g) => Settings { group_spacing: g },
        None => settings,
    }
}

/// The documents after a notification.
pub open spec fn documents_after(docs: Map<Seq<char>, Seq<char>>, note: Notification) -> Map<
    Seq<char>,
    Seq<char>,
> {
    match note {
        Notification::DidOpen { uri, text } => docs.insert(uri@, text@),
        Notification::DidChange { uri, change } => match change {
            Some(t) => docs.insert(uri@, t@),
            None => docs,
        },
        Notification::DidClose { uri } => docs.remove(uri@),
        _ => docs,
    }
}

/// The settings after a notification.
pub open spec fn settings_after_notification(settings: Settings, note: Notification) -> Settings {
    match note {
        Notification::DidChangeConfiguration { settings: value } => settings_after(settings, value),
        _ => settings,
    }
}

/// The inputs on which a hover request does not index past the end of a line:
/// when the document is open, the cursor lies within its line unless a macro is
/// found first.
pub open spec fn hover_in_bounds(docs: Map<Seq<char>, Seq<char>>, uri: Seq<char>, pos: Position) -> bool {
    docs.contains_key(uri) ==> number_lookup_in_bounds(docs[uri], pos)
}

impl Server {
    /// A server with default settings and no open documents.
    pub fn new() -> (r: Server)
        ensures
            r.settings.group_spacing,
            r.documents@ == Map::<Seq<char>, Seq<char>>::empty(),
    {
        Server { settings: Settings::default(), documents: DocumentStore::new() }
    }

    /// Applies the settings given in a configuration value.
    pub fn apply_settings_from_value(&mut self, value: &JsonValue)
        ensures
            final(self).settings == settings_after(old(self).settings, *value),
            final(self).documents@ == old(self).documents@,
    {
        let normalized = normalize_settings(value);
        if let Some(group_spacing) = normalized.group_spacing {
            self.settings.group_spacing = group_spacing;
        }
    }

    /// Updates the documents and settings for a notification.
    pub fn handle_notification(&mut self, note: Notification)
        ensures
            final(self).documents@ == documents_after(old(self).documents@, note),
            final(self).settings == settings_after_notification(old(self).settings, note),
    {
        let ghost n = note;
        match note {
            Notification::DidOpen { uri, text } => {
                self.documents.insert(uri, text);
            },
            Notification::DidChange { uri, change } => {
                if let Some(t) = change {
                    self.documents.insert(uri, t);
                }
            },
            Notification::DidClose { uri } => {
                self.documents.remove(uri.as_str());
            },
            Notification::DidChangeConfiguration { settings } => {
                self.apply_settings_from_value(&settings);
            },
            Notification::Other => {},
        }
    }

    /// Whether a hover request at `pos` in `uri` stays within the line.
    pub fn hover_position_in_bounds(&self, uri: &str, pos: Position) -> (r: bool)
        ensures
            r == hover_in_bounds(self.documents@, uri@, pos),
    {
        match self.documents.get(uri) {
            None => true,
            Some(doc) => crate::locate::lookup_in_bounds(doc.as_str(), pos),
        }
    }

    /// The answer to a hover request at `pos` in the document at `uri`.
    pub fn hover(&self, uri: &str, pos: Position) -> (r: Option<HoverResult>)
        requires
            hover_in_bounds(self.documents@, uri@, pos),
        ensures
            match (r, hover_answer(self.documents@, self.settings, uri@, pos)) {
                (Some(h), Some((markdown, range))) => h.markdown@ == markdown && h.range == range,
                (None, None) => true,
                _ => false,
            },
    {
        let doc = match self.documents.get(uri) {
            Some(t) => t,
            None => return None,
        };
        let parsed = match parse_number_at_position(doc.as_str(), pos) {
            Some(p) => p,
            None => return None,
        };
        proof {
            lemma_number_hexs(doc@, pos);
        }
        let rows = hover_rows_for(&parsed);
        proof {
            lemma_hover_rows_formattable(parsed@);
        }
        let markdown = render_hover(parsed.word.as_str(), rows.as_slice(), &self.settings);
        Some(HoverResult { markdown, range: parsed.range })
    }
}

/// The hover Markdown for the hovered `word` and its `rows`.
pub open spec fn hover_markdown_of(word: Seq<char>, rows: Seq<RowView>, settings: Settings) -> Seq<char> {
    let (heading, rest) = promoted_rows(word, rows);
    let header = match heading {
        Some(h) => h,
        None => RowView { label: Seq::empty(), value: Seq::empty() },
    };
    table_line(header, settings) + table_rule() + joined_lines(
        rest.map_values(|r: RowView| table_line(r, settings)),
    ) + seq!['\n']
}

/// Rows that can be formatted, and that can be promoted to a formattable header.
pub open spec fn rows_formattable(rows: Seq<RowView>) -> bool {
    forall|k: int|
        0 <= k < rows.len() ==> #[trigger] row_formattable(rows[k]) && row_formattable(
            RowView { label: rows[k].label, value: promoted_heading(rows[k]) },
        )
}

fn hover_rows_for(parsed: &ParsedNumber) -> (r: Vec<Row>)
    requires
        hex_digit_text(parsed.hexs@),
    ensures
        rows_view(r@) == hover_rows(parsed@),
{
    proof {
        lemma_hex_text_plain(parsed.hexs@);
        lemma_ascii_pair_cuts(parsed.hexs@);
    }
    let num_le = compute_num_le(parsed.hexs.as_str());
    let ascii = compute_ascii(parsed.hexs.as_str());
    let mut rows: Vec<Row> = Vec::new();
    rows.push(
        Row::new(label_string(0), prefixed_value('0', 'b', &big_to_str_radix(&parsed.big_num, 2))),
    );
    rows.push(
        Row::new(label_string(1), prefixed_value('0', 'o', &big_to_str_radix(&parsed.big_num, 8))),
    );
    rows.push(Row::new(label_string(2), big_to_str_radix(&parsed.big_num, 10)));
    rows.push(Row::new(label_string(3), big_to_str_radix(&num_le, 10)));
    rows.push(Row::new(label_string(4), prefixed_value('0', 'x', &parsed.hexs)));
    if let Some(m) = &parsed.macro_str {
        rows.push(Row::new(label_string(5), m.clone()));
    }
    rows.push(Row::new(label_string(6), ascii));
    assert(rows_view(rows@) =~= hover_rows(parsed@));
    rows
}

fn render_hover(word: &str, rows: &[Row], settings: &Settings) -> (r: String)
    requires
        rows_formattable(rows_view(rows@)),
    ensures
        r@ == hover_markdown_of(word@, rows_view(rows@), *settings),
{
    let ghost all_rows = rows_view(rows@);
    let (heading, rest) = promoted_hover_rows(word, rows);
    let ghost promoted = promoted_rows(word@, all_rows);
    proof {
        match crate::normalize::first_matching_row(
            all_rows,
            crate::normalize::normalized_hovered(word@),
            0,
        ) {
            Some(i) => {
                crate::normalize::lemma_first_matching_row(
                    all_rows,
                    crate::normalize::normalized_hovered(word@),
                    0,
                );
                assert(row_formattable(all_rows[i]));
                assert forall|k: int| 0 <= k < promoted.1.len() implies #[trigger] row_formattable(
                    promoted.1[k],
                ) by {
                    if k < i {
                        assert(promoted.1[k] == all_rows[k]);
                    } else {
                        assert(promoted.1[k] == all_rows[k + 1]);
                    }
                    assert(row_formattable(all_rows[k]));
                    assert(row_formattable(all_rows[k + 1]) || k + 1 >= all_rows.len());
                }
            },
            None => {
                assert forall|k: int| 0 <= k < promoted.1.len() implies #[trigger] row_formattable(
                    promoted.1[k],
                ) by {
                    assert(promoted.1[k] == all_rows[k]);
                    assert(row_formattable(all_rows[k]));
                }
            },
        }
    }
    let heading_row = match heading {
        Some(h) => h,
        None => {
            let empty = Row::new(String::new(), String::new());
            assert(row_formattable(empty@));
            empty
        },
    };
    let header = hover_table_header(&heading_row, settings);
    let mut out = chars_of(header.as_str());
    let rule = vec![
        '\n',
        '|',
        ' ',
        ':',
        '-',
        '-',
        '-',
        ' ',
        '|',
        ' ',
        ':',
        '-',
        '-',
        '-',
        ' ',
        '|',
        '\n',
    ];
    assert(rule@ =~= table_rule());
    append_chars(&mut out, rule.as_slice());
    let ghost lines = rows_view(rest@).map_values(|r: RowView| table_line(r, *settings));
    let ghost before = out@;
    let mut k: usize = 0;
    while k < rest.len()
        invariant
            k <= rest.len(),
            lines == rows_view(rest@).map_values(|r: RowView| table_line(r, *settings)),
            rows_view(rest@) == promoted.1,
            forall|m: int| 0 <= m < promoted.1.len() ==> #[trigger] row_formattable(promoted.1[m]),
            out@ == before + joined_lines(lines.take(k as int)),
        decreases rest.len() - k,
    {
        assert(rows_view(rest@)[k as int] == rest@[k as int]@);
        assert(row_formattable(promoted.1[k as int]));
        let line = hover_table_row(&rest[k], settings);
        let line_chars = chars_of(line.as_str());
        if k > 0 {
            out.push('\n');
        }
        append_chars(&mut out, line_chars.as_slice());
        assert(lines.take(k + 1).drop_last() =~= lines.take(k as int));
        assert(lines.take(k + 1).last() == line@);
        if k == 0 {
            assert(lines.take(1) =~= seq![line@]);
        }
        assert(out@ =~= before + joined_lines(lines.take(k + 1)));
        k += 1;
    }
    assert(lines.take(rest.len() as int) =~= lines);
    out.push('\n');
    string_of(out.as_slice())
}

/// A code action that replaces the number with a macro.
pub struct Replacement {
    /// `Replace with <new_text>`.
    pub title: String,
    /// The macro.
    pub new_text: String,
    /// The range of the number.
    pub range: TextRange,
}

/// `Replace with `
pub open spec fn replace_with() -> Seq<char> {
    seq!['R', 'e', 'p', 'l', 'a', 'c', 'e', ' ', 'w', 'i', 't', 'h', ' ']
}

/// A replacement action with `replacement` as the new text of `range`.
pub fn replacement_action(range: &TextRange, replacement: &[char]) -> (r: Replacement)
    ensures
        r.title@ == replace_with() + replacement@,
        r.new_text@ == replacement@,
        r.range == *range,
{
    let mut title = vec!['R', 'e', 'p', 'l', 'a', 'c', 'e', ' ', 'w', 'i', 't', 'h', ' '];
    assert(title@ =~= replace_with());
    append_chars(&mut title, replacement);
    Replacement { title: string_of(title.as_slice()), new_text: string_of(replacement), range: *range }
}

/// What `macro_replacement_actions` offers for a number: nothing unless it is a
/// non-zero hexadecimal literal without a minus before it; then `BIT(n)` and the
/// size macro, when there is one, for a power of two, else `GENMASK(h, l)` for a
/// run of ones followed by zeros.
pub open spec fn replacement_texts(p: NumberView) -> Seq<Seq<char>> {
    if !(p.kind is Hex) || p.negative || p.value == 0 {
        Seq::empty()
    } else if power_of_two_test(p.value) {
        let bit = (bit_length(p.value) - 1) as nat;
        match size_macro(p.value) {
            Some(m) => seq![bit_macro_text(bit), m],
            None => seq![bit_macro_text(bit)],
        }
    } else {
        match set_bit_range(p.value) {
            Some((high, low)) => seq![genmask_macro_text(high, low)],
            None => Seq::empty(),
        }
    }
}

/// The replacements `r` are those of `texts`, in order, over `range`.
pub open spec fn replacements_are(r: Seq<Replacement>, texts: Seq<Seq<char>>, range: TextRange) -> bool {
    &&& r.len() == texts.len()
    &&& forall|i: int|
        0 <= i < r.len() ==> (#[trigger] r[i]).new_text@ == texts[i] && r[i].title@ == replace_with()
            + texts[i] && r[i].range == range
}

/// The macro replacements offered for a number.
pub fn macro_replacement_actions(parsed: &ParsedNumber) -> (r: Vec<Replacement>)
    ensures
        replacements_are(r@, replacement_texts(parsed@), parsed.range),
{
    let zero = BigNat::from_u32(0);
    let is_hex = match parsed.literal_kind {
        LiteralKind::Hex => true,
        _ => false,
    };
    if !is_hex || parsed.has_negative_prefix || big_eq(&parsed.big_num, &zero) {
        return Vec::new();
    }
    if is_power_of_two(&parsed.big_num) {
        let bit = highest_set_bit(&parsed.big_num);
        let text = bit_macro_chars(bit);
        let mut actions = Vec::new();
        actions.push(replacement_action(&parsed.range, text.as_slice()));
        if let Some(size_macro) = format_size_macro(&parsed.big_num) {
            actions.push(replacement_action(&parsed.range, size_macro.as_slice()));
        }
        return actions;
    }
    if let Some(range) = consecutive_set_bit_range(&parsed.big_num) {
        let text = genmask_macro_chars(range.highest as u64, range.lowest as u64);
        let mut actions = Vec::new();
        actions.push(replacement_action(&parsed.range, text.as_slice()));
        return actions;
    }
    Vec::new()
}

/// What a code-action request is answered: the macro replacements for the
/// number at `pos`, none when the document is not open or no number is there.
pub open spec fn code_action_texts(docs: Map<Seq<char>, Seq<char>>, uri: Seq<char>, pos: Position) -> Option<
    (Seq<Seq<char>>, TextRange),
> {
    if !docs.contains_key(uri) {
        None
    } else {
        match number_at(docs[uri], pos) {
            None => None,
            Some(p) => Some((replacement_texts(p), p.range)),
        }
    }
}

impl Server {
    /// The code actions for a request at `pos` in the document at `uri`.
    pub fn code_actions(&self, uri: &str, pos: Position) -> (r: Vec<Replacement>)
        requires
            hover_in_bounds(self.documents@, uri@, pos),
        ensures
            match code_action_texts(self.documents@, uri@, pos) {
                Some((texts, range)) => replacements_are(r@, texts, range),
                None => r@.len() == 0,
            },
    {
        let doc = match self.documents.get(uri) {
            Some(t) => t,
            None => return Vec::new(),
        };
        let parsed = match parse_number_at_position(doc.as_str(), pos) {
            Some(p) => p,
            None => return Vec::new(),
        };
        macro_replacement_actions(&parsed)
    }
}

/// The requests the server answers.
#[derive(Clone, Copy, PartialEq, Eq, Debug, Structural)]
pub enum RequestKind {
    Hover,
    CodeAction,
    Unknown,
}

/// Which request `method` names.
pub fn classify_request(method: &str) -> (r: RequestKind)
    ensures
        r == (if method@ == "textDocument/hover"@ {
            RequestKind::Hover
        } else if method@ == "textDocument/codeAction"@ {
            RequestKind::CodeAction
        } else {
            RequestKind::Unknown
        }),
{
    let m = chars_of(method);
    let hover = chars_of("textDocument/hover");
    let action = chars_of("textDocument/codeAction");
    if chars_equal(m.as_slice(), hover.as_slice()) {
        RequestKind::Hover
    } else if chars_equal(m.as_slice(), action.as_slice()) {
        RequestKind::CodeAction
    } else {
        RequestKind::Unknown
    }
}

/// The error message for a request the server does not answer.
pub fn method_not_found_message(method: &str) -> (r: String)
    ensures
        r@ == "Method not found: "@ + method@,
{
    let mut out = chars_of("Method not found: ");
    let m = chars_of(method);
    append_chars(&mut out, m.as_slice());
    string_of(out.as_slice())
}

/// The notifications the server acts on.
#[derive(Clone, Copy, PartialEq, Eq, Debug, Structural)]
pub enum NotificationKind {
    DidOpen,
    DidChange,
    DidClose,
    DidChangeConfiguration,
    Other,
}

/// Which notification `method` names.
pub fn classify_notification(method: &str) -> (r: NotificationKind)
    ensures
        r == (if method@ == "textDocument/didOpen"@ {
            NotificationKind::DidOpen
        } else if method@ == "textDocument/didChange"@ {
            NotificationKind::DidChange
        } else if method@ == "textDocument/didClose"@ {
            NotificationKind::DidClose
        } else if method@ == "workspace/didChangeConfiguration"@ {
            NotificationKind::DidChangeConfiguration
        } else {
            NotificationKind::Other
        }),
{
    let m = chars_of(method);
    if chars_equal(m.as_slice(), chars_of("textDocument/didOpen").as_slice()) {
        NotificationKind::DidOpen
    } else if chars_equal(m.as_slice(), chars_of("textDocument/didChange").as_slice()) {
        NotificationKind::DidChange
    } else if chars_equal(m.as_slice(), chars_of("textDocument/didClose").as_slice()) {
        NotificationKind::DidClose
    } else if chars_equal(m.as_slice(), chars_of("workspace/didChangeConfiguration").as_slice()) {
        NotificationKind::DidChangeConfiguration
    } else {
        NotificationKind::Other
    }
}

/// Every numeric form that the hover shows for the number under the cursor
/// reads back as that number: the binary, octal and hexadecimal rows as
/// literals with their prefixes, the big-endian decimal row as a decimal literal;
/// and the header promoted from one of these rows says that number too.
pub proof fn law_hover_forms_denote_number(doc: Seq<char>, pos: Position)
    requires
        number_at(doc, pos) is Some,
    ensures
        ({
            let p = number_at(doc, pos)->0;
            let rows = hover_rows(p);
            &&& crate::literal::binary_literal(rows[0].value) == Some(p.value)
            &&& crate::literal::octal_literal(rows[1].value) == Some(p.value)
            &&& crate::literal::decimal_literal(rows[2].value) == Some(p.value)
            &&& crate::literal::hex_literal(rows[4].value) == Some(p.value)
            &&& match promoted_rows(p.word, rows).0 {
                Some(h) => heading_denotes(h, p.value),
                None => true,
            }
        }),
{
    let p = number_at(doc, pos)->0;
    lemma_number_hexs(doc, pos);
    lemma_forms_denote_number(doc, pos);
    lemma_heading_denotes(p);
}

/// What a header promoted from a number row says of the number `v`: a binary,
/// octal or hexadecimal header reads as `v` in its radix, a big-endian decimal
/// header as a decimal literal.
pub open spec fn heading_denotes(h: RowView, v: nat) -> bool {
    &&& (h.label == label_binary() || h.label == label_octal() || h.label == label_hex())
        ==> crate::normalize::prefixed_literal_value(h.value) == Some(v)
    &&& h.label == label_dec_be() ==> crate::literal::decimal_literal(h.value) == Some(v)
}

/// The row labels differ from one another.
proof fn lemma_labels_distinct()
    ensures
        label_binary() != label_octal(),
        label_binary() != label_hex(),
        label_binary() != label_dec_be(),
        label_binary() != label_dec_le(),
        label_octal() != label_hex(),
        label_octal() != label_dec_be(),
        label_octal() != label_dec_le(),
        label_hex() != label_dec_be(),
        label_hex() != label_dec_le(),
        label_dec_be() != label_dec_le(),
        label_macro() != label_binary() && label_macro() != label_octal() && label_macro()
            != label_hex() && label_macro() != label_dec_be() && label_macro() != label_dec_le(),
        label_ascii() != label_binary() && label_ascii() != label_octal() && label_ascii()
            != label_hex() && label_ascii() != label_dec_be() && label_ascii() != label_dec_le(),
{
    assert(label_binary().len() != label_octal().len());
    assert(label_binary().len() != label_hex().len());
    assert(label_binary().len() != label_dec_be().len());
    assert(label_binary().len() != label_dec_le().len());
    assert(label_octal().len() != label_hex().len());
    assert(label_octal().len() != label_dec_be().len());
    assert(label_octal().len() != label_dec_le().len());
    assert(label_hex().len() != label_dec_be().len());
    assert(label_hex().len() != label_dec_le().len());
    assert(label_dec_be()[5] != label_dec_le()[5]);
    assert(label_macro().len() != label_binary().len());
    assert(label_macro()[0] != label_octal()[0]);
    assert(label_macro().len() != label_hex().len());
    assert(label_macro().len() != label_dec_be().len());
    assert(label_macro().len() != label_dec_le().len());
    assert(label_ascii().len() != label_binary().len());
    assert(label_ascii()[0] != label_octal()[0]);
    assert(label_ascii().len() != label_hex().len());
    assert(label_ascii().len() != label_dec_be().len());
    assert(label_ascii().len() != label_dec_le().len());
}

/// A `0`, a radix letter and digits of that radix keep their value in canonical form.
proof fn lemma_prefixed_row_heading(c: char, d: Seq<char>, v: nat)
    requires
        c == 'b' || c == 'o' || c == 'x',
        d.len() > 0,
        forall|i: int| 0 <= i < d.len() ==> is_radix_digit(#[trigger] d[i], crate::normalize::letter_radix(c)),
        crate::normalize::prefixed_literal_value(seq!['0', c] + d) == Some(v),
    ensures
        crate::normalize::prefixed_literal_value(crate::normalize::normalized_heading(seq!['0', c] + d)) == Some(v),
{
    let s = seq!['0', c] + d;
    assert forall|i: int| 2 <= i < s.len() implies is_radix_digit(#[trigger] s[i], crate::normalize::letter_radix(s[1])) by {
        assert(s[i] == d[i - 2]);
    }
    assert(plain_text(s)) by {
        assert forall|i: int| 0 <= i < s.len() implies ('0' <= #[trigger] s[i] <= '9' || 'a' <= s[i]
            <= 'z' || 'A' <= s[i] <= 'Z') by {
            if i >= 2 {
                assert(s[i] == d[i - 2]);
                assert(is_radix_digit(d[i - 2], crate::normalize::letter_radix(c)));
            }
        }
    }
    lemma_plain_heading(s);
    crate::normalize::law_prefixed_keeps_number(s);
}

/// The header promoted from the hover rows of a number says that number.
proof fn lemma_heading_denotes(p: NumberView)
    requires
        hex_digit_text(p.hexs),
        crate::literal::binary_literal(hover_rows(p)[0].value) == Some(p.value),
        crate::literal::octal_literal(hover_rows(p)[1].value) == Some(p.value),
        crate::literal::decimal_literal(hover_rows(p)[2].value) == Some(p.value),
        crate::literal::hex_literal(hover_rows(p)[4].value) == Some(p.value),
    ensures
        match promoted_rows(p.word, hover_rows(p)).0 {
            Some(h) => heading_denotes(h, p.value),
            None => true,
        },
{
    let rows = hover_rows(p);
    lemma_labels_distinct();
    let w = crate::normalize::normalized_hovered(p.word);
    if let Some(i) = crate::normalize::first_matching_row(rows, w, 0) {
        crate::normalize::lemma_first_matching_row(rows, w, 0);
        let h = RowView { label: rows[i].label, value: promoted_heading(rows[i]) };
        assert(promoted_rows(p.word, rows).0 == Some(h));
        if i == 0 {
            lemma_radix_string_digits(p.value, 2);
            assert(rows[0].value == seq!['0', 'b'] + radix_string(p.value, 2));
            lemma_prefixed_row_heading('b', radix_string(p.value, 2), p.value);
        } else if i == 1 {
            lemma_radix_string_digits(p.value, 8);
            assert(rows[1].value == seq!['0', 'o'] + radix_string(p.value, 8));
            lemma_prefixed_row_heading('o', radix_string(p.value, 8), p.value);
        } else if i == 2 {
            let v2 = radix_string(p.value, 10);
            lemma_radix_string_digits(p.value, 10);
            lemma_radix_plain(p.value, 10);
            lemma_plain_heading(v2);
            if v2.len() >= 3 {
                assert(is_radix_digit(v2[1], 10));
            }
            assert(crate::normalize::normalized_prefixed(v2) == v2);
        } else if i == 4 {
            assert(rows[4].value == seq!['0', 'x'] + p.hexs);
            lemma_prefixed_row_heading('x', p.hexs, p.value);
        }
    }
}

/// The numeric rows of a hover read back as the number under the cursor.
proof fn lemma_forms_denote_number(doc: Seq<char>, pos: Position)
    requires
        number_at(doc, pos) is Some,
    ensures
        ({
            let p = number_at(doc, pos)->0;
            let rows = hover_rows(p);
            &&& crate::literal::binary_literal(rows[0].value) == Some(p.value)
            &&& crate::literal::octal_literal(rows[1].value) == Some(p.value)
            &&& crate::literal::decimal_literal(rows[2].value) == Some(p.value)
            &&& crate::literal::hex_literal(rows[4].value) == Some(p.value)
        }),
{
    let p = number_at(doc, pos)->0;
    crate::literal::law_binary_round_trip(p.value);
    crate::literal::law_octal_round_trip(p.value);
    crate::literal::law_decimal_round_trip(p.value);
    crate::literal::law_hex_round_trip(p.value);
    lemma_number_hexs(doc, pos);
    let line = crate::locate::line_of(doc, pos.line as int)->0;
    if crate::scan::macro_at(line, pos) is Some {
        crate::scan::lemma_macro_at_hexs(line, pos);
    } else if p.kind is Hex {
        let col = pos.character as int;
        let start = crate::locate::word_start_of(line, col);
        let end = crate::locate::word_end_of(line, col);
        let found = line.subrange(start, end);
        let minus_before = start > 0 && line[start - 1] == '-';
        let leading_minus = found[0] == '-' && !minus_before;
        let word = if leading_minus {
            found.drop_first()
        } else {
            found
        };
        let numeric = crate::literal::stripped_integer(word);
        let body = numeric.skip(2);
        assert(crate::literal::hex_literal(numeric) == Some(p.value));
        assert(p.hexs == crate::literal::drop_separators(body));
        crate::literal::lemma_drop_separators_value(body, 16);
        let s = crate::render::prefix_hex() + p.hexs;
        assert(s.skip(2) =~= p.hexs);
        assert(is_radix_digit(p.hexs[0], 16));
    } else {
        assert(p.hexs == radix_string(p.value, 16));
    }
}

/// A macro offered in place of a number, read back by the macro scanner with
/// the cursor anywhere on it, is that number again: the first one, `BIT(n)` or
/// `GENMASK(h, l)`, when the number's highest set bit is at most 4096; a size
/// macro, when it counts kibibytes (`SZ_<n>K`).
pub proof fn law_replacement_reads_back(p: NumberView, i: int, pos: Position)
    requires
        0 <= i < replacement_texts(p).len(),
        i == 0 ==> bit_length(p.value) <= crate::scan::MAX_MACRO_BIT_INDEX + 1,
        i > 0 ==> replacement_texts(p)[i].last() == 'K',
        pos.character <= replacement_texts(p)[i].len(),
    ensures
        crate::scan::macro_at(replacement_texts(p)[i], pos) matches Some(q) && q.value == p.value,
{
    let v = p.value;
    if power_of_two_test(v) {
        if i == 0 {
            crate::bitmacro::law_power_of_two(v);
            crate::scan::law_bit_macro_reads_back((bit_length(v) - 1) as nat, pos);
        } else {
            crate::bitmacro::lemma_kibibyte_size_macro(v);
            let n = v / 1024;
            crate::scan::lemma_decimal_text_len(n);
            crate::scan::law_kibibyte_macro_reads_back(n, pos);
        }
    } else {
        let (high, low) = set_bit_range(v)->0;
        crate::bitmacro::law_set_bit_range_is_mask(v);
        crate::bitmacro::lemma_binary_len(v);
        crate::scan::law_genmask_macro_reads_back(high, low, pos);
    }
}

/// The document that a notification writes or removes, if any.
pub open spec fn touched_uri(note: Notification) -> Option<Seq<char>> {
    match note {
        Notification::DidOpen { uri, .. } => Some(uri@),
        Notification::DidChange { uri, change: Some(_) } => Some(uri@),
        Notification::DidClose { uri } => Some(uri@),
        _ => None,
    }
}

/// Requests read what the last notification left: after a document is opened,
/// or changed with new text, a hover or a code-action request on it is answered
/// from that text alone; after it is closed, both are answered with nothing; a
/// document that the notification does not touch is answered as before.
pub proof fn law_requests_follow_notifications(
    docs: Map<Seq<char>, Seq<char>>,
    settings: Settings,
    note: Notification,
    uri: Seq<char>,
    pos: Position,
)
    ensures
        note matches Notification::DidOpen { uri: u, text: t } ==> (u@ == uri ==> {
            &&& hover_answer(documents_after(docs, note), settings, uri, pos) == hover_answer(
                map![uri => t@],
                settings,
                uri,
                pos,
            )
            &&& code_action_texts(documents_after(docs, note), uri, pos) == code_action_texts(
                map![uri => t@],
                uri,
                pos,
            )
        }),
        note matches Notification::DidChange { uri: u, change: Some(t) } ==> (u@ == uri ==> {
            &&& hover_answer(documents_after(docs, note), settings, uri, pos) == hover_answer(
                map![uri => t@],
                settings,
                uri,
                pos,
            )
            &&& code_action_texts(documents_after(docs, note), uri, pos) == code_action_texts(
                map![uri => t@],
                uri,
                pos,
            )
        }),
        note matches Notification::DidClose { uri: u } ==> (u@ == uri ==> {
            &&& hover_answer(documents_after(docs, note), settings, uri, pos) is None
            &&& code_action_texts(documents_after(docs, note), uri, pos) is None
        }),
        touched_uri(note) != Some(uri) ==> {
            &&& hover_answer(documents_after(docs, note), settings, uri, pos) == hover_answer(
                docs,
                settings,
                uri,
                pos,
            )
            &&& code_action_texts(documents_after(docs, note), uri, pos) == code_action_texts(
                docs,
                uri,
                pos,
            )
        },
{
    let after = documents_after(docs, note);
    if touched_uri(note) != Some(uri) {
        assert(after.contains_key(uri) == docs.contains_key(uri));
        if docs.contains_key(uri) {
            assert(after[uri] == docs[uri]);
        }
    }
}

} // verus!
