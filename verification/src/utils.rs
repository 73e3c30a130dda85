//! Helpers over keys: reading key codes, the code-to-name lookup and the
//! colour of a key in the light map.
use vstd::prelude::*;
use crate::text::{hex_code_value, hex_digit_value, hex_text_value, hex_u32, is_hex_text, strip_hex_prefix};
use crate::types::{Color, Key, created_color};

verus! {

/// Whether a character is a hexadecimal digit, and its value.
fn hex_digit(c: char) -> (r: Option<u32>)
    ensures
        r matches Some(v) ==> hex_digit_value(c) == Some(v as nat) && v < 16,
        r is None ==> hex_digit_value(c) is None,
{
    if '0' <= c && c <= '9' {
        Some(c as u32 - 48)
    } else if 'a' <= c && c <= 'f' {
        Some(c as u32 - 87)
    } else if 'A' <= c && c <= 'F' {
        Some(c as u32 - 55)
    } else {
        None
    }
}

/// The value of a prefix of a hexadecimal text is no more than that of
/// the whole.
proof fn lemma_hex_value_prefix(d: Seq<char>, k: int)
    requires
        is_hex_text(d),
        0 <= k <= d.len(),
    ensures
        hex_text_value(d.take(k)) <= hex_text_value(d),
    decreases d.len() - k,
{
    if k < d.len() {
        lemma_hex_value_prefix(d, k + 1);
        assert(d.take(k + 1).drop_last() =~= d.take(k));
    } else {
        assert(d.take(k) =~= d);
    }
}

proof fn lemma_strip_step(s: Seq<char>, k: int)
    requires
        0 <= k,
        k + 1 < s.len(),
        s[k] == '0',
        s[k + 1] == 'x',
    ensures
        strip_hex_prefix(s.skip(k)) == strip_hex_prefix(s.skip(k + 2)),
{
    assert(s.skip(k).skip(2) =~= s.skip(k + 2));
}

/// Reads a key code: every leading `0x` is removed, and the rest is read as a
/// base-16 `u32` (an optional `+`, then hexadecimal digits in either case);
/// text that is not such a number, or whose value needs more than 32 bits,
/// gives 0.
pub fn parse_hex(s: &str) -> (v: u32)
    ensures
        v == hex_code_value(s@),
{
    let n = s.unicode_len();
    let mut k: usize = 0;
    assert(s@.skip(0) =~= s@);
    while n - k >= 2 && s.get_char(k) == '0' && s.get_char(k + 1) == 'x'
        invariant
            k <= n,
            n == s@.len(),
            strip_hex_prefix(s@) == strip_hex_prefix(s@.skip(k as int)),
        decreases n - k,
    {
        proof {
            lemma_strip_step(s@, k as int);
        }
        k = k + 2;
    }
    let ghost t = s@.skip(k as int);
    assert(strip_hex_prefix(s@) == t);
    if k == n {
        return 0;
    }
    let first = s.get_char(k);
    assert(t[0] == first);
    let mut j: usize = k;
    if first == '+' || first == '-' {
        if k + 1 == n {
            return 0;
        }
        if first == '+' {
            j = k + 1;
        }
    }
    let ghost digits = s@.skip(j as int);
    assert(digits =~= (if t[0] == '+' {
        t.drop_first()
    } else {
        t
    }));
    let mut acc: u64 = 0;
    let mut i: usize = j;
    while i < n
        invariant
            j <= i <= n,
            n == s@.len(),
            digits == s@.skip(j as int),
            t.len() > 0,
            !((t[0] == '+' || t[0] == '-') && t.len() == 1),
            digits == (if t[0] == '+' {
                t.drop_first()
            } else {
                t
            }),
            strip_hex_prefix(s@) == t,
            is_hex_text(digits.take(i - j)),
            acc == hex_text_value(digits.take(i - j)),
            acc <= u32::MAX,
        decreases n - i,
    {
        let c = s.get_char(i);
        assert(digits[i - j] == c);
        match hex_digit(c) {
            None => {
                assert(hex_digit_value(digits[i - j]) is None);
                assert(!is_hex_text(digits));
                assert(hex_u32(t) is None);
                return 0;
            },
            Some(d) => {
                assert(digits.take(i - j + 1).drop_last() =~= digits.take(i - j));
                assert(digits.take(i - j + 1).last() == c);
                acc = acc * 16 + d as u64;
                assert(is_hex_text(digits.take(i - j + 1))) by {
                    assert forall|q: int| 0 <= q < digits.take(i - j + 1).len() implies (
                    #[trigger] hex_digit_value(digits.take(i - j + 1)[q])) is Some by {
                        if q < i - j {
                            assert(digits.take(i - j + 1)[q] == digits.take(i - j)[q]);
                        }
                    }
                }
                if acc > 0xffff_ffff {
                    proof {
                        if is_hex_text(digits) {
                            lemma_hex_value_prefix(digits, i - j + 1);
                        }
                        assert(hex_u32(t) is None);
                    }
                    return 0;
                }
                i = i + 1;
            },
        }
    }
    assert(digits.take(i - j) =~= digits);
    acc as u32
}


/// The code-to-name table of a list of keys: each key's code text names the
/// key's label, and where two keys share a code the later one wins.
pub open spec fn lookup_of_keys(keys: Seq<Key>) -> Map<Seq<char>, Seq<char>>
    decreases keys.len(),
{
    if keys.len() == 0 {
        Map::empty()
    } else {
        lookup_of_keys(keys.drop_last()).insert(keys.last().value@, keys.last().name@)
    }
}

/// The table that a list of (code, label) entries makes, later entries
/// replacing earlier ones.
pub open spec fn lookup_of_entries(e: Seq<(String, String)>) -> Map<Seq<char>, Seq<char>>
    decreases e.len(),
{
    if e.len() == 0 {
        Map::empty()
    } else {
        lookup_of_entries(e.drop_last()).insert(e.last().0@, e.last().1@)
    }
}

/// No code occurs twice among the entries.
pub open spec fn distinct_codes(e: Seq<(String, String)>) -> bool {
    forall|i: int, j: int| 0 <= i < j < e.len() ==> (#[trigger] e[i]).0@ != (#[trigger] e[j]).0@
}

/// A table from key-code text to key label: one entry per code.
pub struct KeyLookup {
    entries: Vec<(String, String)>,
}

impl KeyLookup {
    #[verifier::type_invariant]
    spec fn codes_distinct(self) -> bool {
        distinct_codes(self.entries@)
    }
}

impl View for KeyLookup {
    type V = Map<Seq<char>, Seq<char>>;

    closed spec fn view(&self) -> Map<Seq<char>, Seq<char>> {
        lookup_of_entries(self.entries@)
    }
}

/// The label of a code is the one of the last entry with that code, and a
/// code without an entry has no label.
proof fn lemma_lookup_last(e: Seq<(String, String)>, k: Seq<char>, i: int)
    requires
        -1 <= i < e.len(),
        i >= 0 ==> e[i].0@ == k,
        forall|q: int| i < q < e.len() ==> (#[trigger] e[q]).0@ != k,
    ensures
        i >= 0 ==> lookup_of_entries(e).contains_key(k) && lookup_of_entries(e)[k] == e[i].1@,
        i < 0 ==> !lookup_of_entries(e).contains_key(k),
    decreases e.len(),
{
    if e.len() == 0 {
    } else if i == e.len() - 1 {
    } else {
        let d = e.drop_last();
        assert forall|q: int| i < q < d.len() implies (#[trigger] d[q]).0@ != k by {
            assert(d[q] == e[q]);
        }
        assert(e.last() == e[e.len() - 1]);
        if i >= 0 {
            assert(d[i] == e[i]);
        }
        lemma_lookup_last(d, k, i);
    }
}

/// With distinct codes, each entry gives the label of its code, and the
/// table has exactly one code per entry.
proof fn lemma_distinct_lookup(e: Seq<(String, String)>)
    requires
        distinct_codes(e),
    ensures
        lookup_of_entries(e).dom().finite(),
        lookup_of_entries(e).dom().len() == e.len(),
        forall|i: int|
            0 <= i < e.len() ==> lookup_of_entries(e).contains_key((#[trigger] e[i]).0@)
                && lookup_of_entries(e)[e[i].0@] == e[i].1@,
    decreases e.len(),
{
    if e.len() > 0 {
        let d = e.drop_last();
        assert forall|i: int, j: int| 0 <= i < j < d.len() implies (#[trigger] d[i]).0@ != (
        #[trigger] d[j]).0@ by {
            assert(d[i] == e[i] && d[j] == e[j]);
        }
        lemma_distinct_lookup(d);
        let last = e[e.len() - 1];
        assert(e.last() == last);
        assert forall|q: int| -1 < q < d.len() implies (#[trigger] d[q]).0@ != last.0@ by {
            assert(d[q] == e[q]);
        }
        lemma_lookup_last(d, last.0@, -1);
        assert forall|i: int| 0 <= i < e.len() implies lookup_of_entries(e).contains_key(
            (#[trigger] e[i]).0@,
        ) && lookup_of_entries(e)[e[i].0@] == e[i].1@ by {
            assert forall|q: int| i < q < e.len() implies (#[trigger] e[q]).0@ != e[i].0@ by {}
            lemma_lookup_last(e, e[i].0@, i);
        }
    }
}

/// Replacing the label of an entry, distinct codes kept, replaces the label of
/// its code in the table.
proof fn lemma_replace_label(e: Seq<(String, String)>, j: int, entry: (String, String))
    requires
        distinct_codes(e),
        0 <= j < e.len(),
        entry.0@ == e[j].0@,
    ensures
        distinct_codes(e.update(j, entry)),
        lookup_of_entries(e.update(j, entry)) == lookup_of_entries(e).insert(entry.0@, entry.1@),
{
    let f = e.update(j, entry);
    assert forall|a: int, b: int| 0 <= a < b < f.len() implies (#[trigger] f[a]).0@ != (
    #[trigger] f[b]).0@ by {
        assert(e[a].0@ != e[b].0@);
    }
    let m = lookup_of_entries(e).insert(entry.0@, entry.1@);
    let mf = lookup_of_entries(f);
    lemma_distinct_lookup(e);
    lemma_distinct_lookup(f);
    assert forall|k: Seq<char>| #[trigger] mf.contains_key(k) <==> m.contains_key(k) by {
        if mf.contains_key(k) && !m.contains_key(k) {
            assert forall|q: int| -1 < q < f.len() implies (#[trigger] f[q]).0@ != k by {
                if q != j {
                    assert(f[q] == e[q]);
                    assert(lookup_of_entries(e).contains_key(e[q].0@));
                }
            }
            lemma_lookup_last(f, k, -1);
        }
        if m.contains_key(k) && !mf.contains_key(k) && k != entry.0@ {
            assert forall|q: int| -1 < q < e.len() implies (#[trigger] e[q]).0@ != k by {
                if q != j {
                    assert(f[q] == e[q]);
                    assert(mf.contains_key(f[q].0@));
                }
            }
            lemma_lookup_last(e, k, -1);
        }
        if k == entry.0@ {
            assert(mf.contains_key(f[j].0@));
        }
    }
    assert forall|k: Seq<char>| #[trigger] mf.contains_key(k) implies mf[k] == m[k] by {
        if k != entry.0@ {
            if !lookup_of_entries(e).contains_key(k) {
                assert(m.contains_key(k));
            }
            assert(lookup_of_entries(e).contains_key(k));
            let q = choose|q: int| 0 <= q < e.len() && (#[trigger] e[q]).0@ == k;
            if !(exists|q: int| 0 <= q < e.len() && (#[trigger] e[q]).0@ == k) {
                assert forall|q: int| -1 < q < e.len() implies (#[trigger] e[q]).0@ != k by {}
                lemma_lookup_last(e, k, -1);
            }
            assert(q != j);
            assert(f[q] == e[q]);
        } else {
            assert(f[j] == entry);
        }
    }
    assert(mf =~= m);
}

impl KeyLookup {
    /// The label of `value`, if some key has that code text.
    pub fn get(&self, value: &String) -> (r: Option<&String>)
        ensures
            r matches Some(name) ==> self@.contains_key(value@) && name@ == self@[value@],
            r is None ==> !self@.contains_key(value@),
    {
        let mut j = self.entries.len();
        while j > 0
            invariant
                j <= self.entries@.len(),
                forall|q: int| j <= q < self.entries@.len() ==> (#[trigger] self.entries@[q]).0@ != value@,
            decreases j,
        {
            if self.entries[j - 1].0 == *value {
                proof {
                    lemma_lookup_last(self.entries@, value@, j - 1);
                }
                return Some(&self.entries[j - 1].1);
            }
            j = j - 1;
        }
        proof {
            lemma_lookup_last(self.entries@, value@, -1);
        }
        None
    }

    /// Whether some key has the code text `value`.
    pub fn contains_key(&self, value: &String) -> (r: bool)
        ensures
            r == self@.contains_key(value@),
    {
        self.get(value).is_some()
    }

    /// The number of distinct codes in the table.
    pub fn len(&self) -> (n: usize)
        ensures
            self@.dom().finite(),
            n == self@.dom().len(),
    {
        proof {
            use_type_invariant(self);
            lemma_distinct_lookup(self.entries@);
        }
        self.entries.len()
    }
}

/// No key after key `i` has key `i`'s code.
pub open spec fn last_with_code(keys: Seq<Key>, i: int) -> bool {
    forall|q: int| i < q < keys.len() ==> (#[trigger] keys[q]).value@ != keys[i].value@
}

/// The table of a list of keys holds the code of every key, whatever its
/// layer.
pub proof fn lemma_lookup_holds_every_code(keys: Seq<Key>, i: int)
    requires
        0 <= i < keys.len(),
    ensures
        lookup_of_keys(keys).contains_key(keys[i].value@),
    decreases keys.len(),
{
    if i < keys.len() - 1 {
        let d = keys.drop_last();
        assert(d[i] == keys[i]);
        lemma_lookup_holds_every_code(d, i);
    }
}

/// The label of a code in the table is the name of the last key with that
/// code.
pub proof fn lemma_lookup_label_is_last(keys: Seq<Key>, i: int)
    requires
        0 <= i < keys.len(),
        last_with_code(keys, i),
    ensures
        lookup_of_keys(keys)[keys[i].value@] == keys[i].name@,
    decreases keys.len(),
{
    if i < keys.len() - 1 {
        let d = keys.drop_last();
        assert(d[i] == keys[i]);
        assert(keys[keys.len() - 1].value@ != keys[i].value@);
        assert forall|q: int| i < q < d.len() implies (#[trigger] d[q]).value@ != d[i].value@ by {
            assert(d[q] == keys[q]);
        }
        lemma_lookup_label_is_last(d, i);
    }
}

/// The table holds no code that no key has.
pub proof fn lemma_lookup_only_codes(keys: Seq<Key>, k: Seq<char>)
    requires
        lookup_of_keys(keys).contains_key(k),
    ensures
        exists|i: int| 0 <= i < keys.len() && (#[trigger] keys[i]).value@ == k,
    decreases keys.len(),
{
    let d = keys.drop_last();
    if keys[keys.len() - 1].value@ != k {
        assert(keys.last() == keys[keys.len() - 1]);
        lemma_lookup_only_codes(d, k);
        let i = choose|i: int| 0 <= i < d.len() && (#[trigger] d[i]).value@ == k;
        assert(keys[i] == d[i]);
    }
}

/// The table from each key's code text to its label, keys of every layer
/// alike; where two keys share a code, the later key's label is kept.
pub fn build_key_lookup(keys: &[Key]) -> (m: KeyLookup)
    ensures
        m@ == lookup_of_keys(keys@),
        forall|i: int| 0 <= i < keys@.len() ==> m@.contains_key((#[trigger] keys@[i]).value@),
        forall|i: int|
            0 <= i < keys@.len() && last_with_code(keys@, i) ==> m@[(#[trigger] keys@[i]).value@]
                == keys@[i].name@,
        forall|k: Seq<char>|
            #[trigger] m@.contains_key(k) ==> exists|i: int|
                0 <= i < keys@.len() && (#[trigger] keys@[i]).value@ == k,
{
    let mut entries: Vec<(String, String)> = Vec::new();
    let mut i: usize = 0;
    while i < keys.len()
        invariant
            i <= keys@.len(),
            distinct_codes(entries@),
            lookup_of_entries(entries@) == lookup_of_keys(keys@.take(i as int)),
        decreases keys@.len() - i,
    {
        let entry = (keys[i].value.clone(), keys[i].name.clone());
        let ghost old_entries = entries@;
        assert(keys@.take(i as int + 1).drop_last() =~= keys@.take(i as int));
        let mut j: usize = 0;
        let mut found = false;
        while j < entries.len()
            invariant_except_break
                !found,
            invariant
                j <= entries@.len(),
                entries@ == old_entries,
                forall|q: int| 0 <= q < j ==> (#[trigger] entries@[q]).0@ != entry.0@,
            ensures
                found ==> j < entries@.len() && entries@[j as int].0@ == entry.0@,
                !found ==> j >= entries@.len(),
            decreases entries@.len() - j,
        {
            if entries[j].0 == entry.0 {
                found = true;
                break;
            }
            j = j + 1;
        }
        if found {
            proof {
                lemma_replace_label(entries@, j as int, entry);
            }
            entries.set(j, entry);
        } else {
            entries.push(entry);
            assert(entries@.drop_last() =~= old_entries);
            assert forall|a: int, b: int| 0 <= a < b < entries@.len() implies (
            #[trigger] entries@[a]).0@ != (#[trigger] entries@[b]).0@ by {
                if b < old_entries.len() {
                    assert(entries@[a] == old_entries[a] && entries@[b] == old_entries[b]);
                } else {
                    assert(entries@[a] == old_entries[a]);
                }
            }
        }
        i = i + 1;
    }
    assert(keys@.take(keys@.len() as int) =~= keys@);
    let m = KeyLookup { entries };
    proof {
        assert forall|i: int| 0 <= i < keys@.len() implies m@.contains_key(
            (#[trigger] keys@[i]).value@,
        ) by {
            lemma_lookup_holds_every_code(keys@, i);
        }
        assert forall|i: int| 0 <= i < keys@.len() && last_with_code(keys@, i) implies m@[(
        #[trigger] keys@[i]).value@] == keys@[i].name@ by {
            lemma_lookup_label_is_last(keys@, i);
        }
        assert forall|k: Seq<char>| #[trigger] m@.contains_key(k) implies exists|i: int|
            0 <= i < keys@.len() && (#[trigger] keys@[i]).value@ == k by {
            lemma_lookup_only_codes(keys@, k);
        }
    }
    m
}

/// The colour of light slot `pos` in a light map of three planes (red at
/// `pos`, green at `pos + 126`, blue at `pos + 252`); all zeros where the
/// slot is 126 or more or the map is too short.
pub open spec fn light_color(lights: Seq<u8>, pos: int) -> Color {
    if pos < 126 && pos + 252 < lights.len() {
        created_color(lights[pos], lights[pos + 126], lights[pos + 252])
    } else {
        Color { r: 0, g: 0, b: 0, a: 0 }
    }
}

/// The colour read from a slot of a light map is the slot's red, green and
/// blue planes, flagged 0 exactly when all three are 0 (and 1 otherwise);
/// a slot of 126 or more, or past the map, reads as all zeros.
pub proof fn lemma_light_color_planes(lights: Seq<u8>, pos: int)
    requires
        0 <= pos,
    ensures
        pos < 126 && pos + 252 < lights.len() ==> {
            let c = light_color(lights, pos);
            &&& c.r == lights[pos]
            &&& c.g == lights[pos + 126]
            &&& c.b == lights[pos + 252]
            &&& (c.a == 0 <==> (c.r == 0 && c.g == 0 && c.b == 0))
            &&& c.a <= 1
        },
        !(pos < 126 && pos + 252 < lights.len()) ==> light_color(lights, pos) == (Color {
            r: 0,
            g: 0,
            b: 0,
            a: 0,
        }),
{
}

/// The colour of light slot `pos`, read from the three colour planes of
/// `lights`.
pub fn extract_color_from_lights(lights: &[u8], pos: usize) -> (c: Color)
    ensures
        c == light_color(lights@, pos as int),
        pos < 126 && pos + 252 < lights@.len() ==> {
            &&& c.r == lights@[pos as int]
            &&& c.g == lights@[pos + 126]
            &&& c.b == lights@[pos + 252]
            &&& (c.a == 0 <==> (c.r == 0 && c.g == 0 && c.b == 0))
            &&& c.a <= 1
        },
        !(pos < 126 && pos + 252 < lights@.len()) ==> c.r == 0 && c.g == 0 && c.b == 0 && c.a
            == 0,
{
    if pos >= 126 || pos + 252 >= lights.len() {
        return Color { r: 0, g: 0, b: 0, a: 0 };
    }
    Color::create(lights[pos], lights[pos + 126], lights[pos + 252])
}

} // verus!
