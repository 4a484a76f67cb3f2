//! Keybinding syntax and configuration defaults.
//!
//! A keybinding is written in an emacs-like form, for example
//! `"M-x | kitty"`: the part before `" | "` names a special key (`M`, `S`,
//! `C` or `A`) followed by `-`-separated keys, and the part after it is the
//! command to run.  `keys_to_keycodes` turns key names into numeric codes by
//! summing the UTF-8 bytes of the trimmed, ASCII-uppercased name.

use vstd::prelude::*;

verus! {

/// A modifier key named by the first segment of a keybinding.
#[derive(Clone, Copy, PartialEq, Eq, Structural, Debug)]
pub enum SpecialKey {
    ModKey,
    ShiftKey,
    ControlKey,
    AltKey,
}

/// One parsed keybinding: an optional modifier, the plain keys, and the
/// command the binding runs.
#[derive(Debug, PartialEq)]
pub struct Keybind {
    pub special_key: Option<SpecialKey>,
    pub keys: Vec<String>,
    pub command: String,
}

/// Splitting a character sequence at every occurrence of `sep`.  The result
/// always holds at least one (possibly empty) segment.
pub open spec fn spec_split(s: Seq<char>, sep: char) -> Seq<Seq<char>>
    decreases s.len(),
{
    if s.len() == 0 {
        seq![Seq::<char>::empty()]
    } else if s[0] == sep {
        seq![Seq::<char>::empty()] + spec_split(s.drop_first(), sep)
    } else {
        let rest = spec_split(s.drop_first(), sep);
        seq![seq![s[0]] + rest[0]] + rest.drop_first()
    }
}

/// `spec_split` yields at least one segment.
pub proof fn lemma_split_nonempty(s: Seq<char>, sep: char)
    ensures
        spec_split(s, sep).len() >= 1,
    decreases s.len(),
{
    if s.len() != 0 {
        lemma_split_nonempty(s.drop_first(), sep);
    }
}

/// A sequence without the separator is a single segment.
pub proof fn lemma_split_no_sep(s: Seq<char>, sep: char)
    requires
        forall|j: int| 0 <= j < s.len() ==> s[j] != sep,
    ensures
        spec_split(s, sep) =~~= seq![s],
    decreases s.len(),
{
    if s.len() == 0 {
        assert(Seq::<char>::empty() =~= s);
    } else {
        lemma_split_no_sep(s.drop_first(), sep);
        lemma_split_nonempty(s.drop_first(), sep);
        assert(seq![s[0]] + s.drop_first() =~= s);
    }
}

/// Splitting at the first separator occurrence: the prefix before it is the
/// first segment, and the rest of the segments come from the suffix.
pub proof fn lemma_split_at_first(s: Seq<char>, sep: char, i: int)
    requires
        0 <= i < s.len(),
        s[i] == sep,
        forall|j: int| 0 <= j < i ==> s[j] != sep,
    ensures
        spec_split(s, sep) =~~= seq![s.take(i)] + spec_split(s.skip(i + 1), sep),
    decreases i,
{
    if i == 0 {
        assert(s.take(0) =~= Seq::<char>::empty());
        assert(s.skip(1) =~= s.drop_first());
    } else {
        let d = s.drop_first();
        assert(d[i - 1] == sep);
        assert(forall|j: int| 0 <= j < i - 1 ==> d[j] != sep);
        lemma_split_at_first(d, sep, i - 1);
        lemma_split_nonempty(d.skip(i), sep);
        assert(seq![s[0]] + d.take(i - 1) =~= s.take(i));
        assert(d.skip(i) =~= s.skip(i + 1));
    }
}

/// Whether the three-character command separator `" | "` starts at `i`.
pub open spec fn spec_sep_at(s: Seq<char>, i: int) -> bool {
    &&& 0 <= i
    &&& i + 3 <= s.len()
    &&& s[i] == ' '
    &&& s[i + 1] == '|'
    &&& s[i + 2] == ' '
}

/// Whether the sequence holds the command separator at all.
pub open spec fn spec_has_sep(s: Seq<char>) -> bool {
    exists|i: int| spec_sep_at(s, i)
}

/// The modifier a single key-part segment names.
pub open spec fn spec_special(tok: Seq<char>) -> Option<SpecialKey> {
    if tok =~= seq!['M'] {
        Some(SpecialKey::ModKey)
    } else if tok =~= seq!['S'] {
        Some(SpecialKey::ShiftKey)
    } else if tok =~= seq!['C'] {
        Some(SpecialKey::ControlKey)
    } else if tok =~= seq!['A'] {
        Some(SpecialKey::AltKey)
    } else {
        None
    }
}

/// What a parse of `s` must yield, given that the separator first occurs at
/// `i`: the command is everything after the separator, the segments before
/// it are split on `'-'`, the first segment names the modifier and the rest
/// are the keys.
pub open spec fn keybind_parse_ok(s: Seq<char>, i: int, r: Keybind) -> bool {
    &&& spec_sep_at(s, i)
    &&& forall|j: int| 0 <= j < i ==> !spec_sep_at(s, j)
    &&& r.command@ == s.skip(i + 3)
    &&& r.keys@.map_values(|k: String| k@) =~~= spec_split(s.take(i), '-').drop_first()
    &&& r.special_key == spec_special(spec_split(s.take(i), '-')[0])
}

impl Keybind {
    /// Parse a keybinding string such as `"M-x | kitty"`.  The input must
    /// hold the `" | "` separator between the key part and the command.
    pub fn from(keybind: &str) -> (r: Keybind)
        requires
            spec_has_sep(keybind@),
        ensures
            exists|i: int| #[trigger] spec_sep_at(keybind@, i) && keybind_parse_ok(keybind@, i, r),
    {
        let s = keybind;
        let n = s.unicode_len();
        // Find the first occurrence of " | ".
        let mut sep: usize = 0;
        let mut found = false;
        loop
            invariant_except_break
                !found ==> sep < n,
            invariant
                0 <= sep,
                n == s@.len(),
                !found ==> forall|j: int| 0 <= j < sep ==> !spec_sep_at(s@, j),
                found ==> spec_sep_at(s@, sep as int) && (forall|j: int|
                    0 <= j < sep ==> !spec_sep_at(s@, j)),
                !found ==> sep + 3 <= n,
                spec_has_sep(s@),
            ensures
                spec_sep_at(s@, sep as int),
                forall|j: int| 0 <= j < sep ==> !spec_sep_at(s@, j),
            decreases n - sep,
        {
            if s.get_char(sep) == ' ' && s.get_char(sep + 1) == '|' && s.get_char(sep + 2) == ' ' {
                found = true;
                break;
            }
            proof {
                if sep + 4 > n {
                    // No later start index could fit the separator, yet one
                    // exists somewhere: contradiction with the scan so far.
                    let w = choose|i: int| spec_sep_at(s@, i);
                    assert(w <= sep);
                    assert(false);
                }
            }
            sep += 1;
        }

        let keys_part = s.substring_char(0, sep);
        let command_part = s.substring_char(sep + 3, n);
        let command = command_part.to_owned();
        proof {
            assert(command@ =~= s@.skip(sep + 3));
        }

        // Split the key part on '-'.
        let ghost kp = keys_part@;
        let kp_len = sep;
        let mut segments: Vec<String> = Vec::new();
        let mut start: usize = 0;
        let ghost mut seen: Seq<Seq<char>> = Seq::empty();
        proof {
            assert(kp.skip(0) =~= kp);
            assert(seen + spec_split(kp, '-') =~~= spec_split(kp, '-'));
            assert(segments@.map_values(|k: String| k@) =~~= seen);
        }
        loop
            invariant_except_break
                spec_split(kp, '-') =~~= seen + spec_split(kp.skip(start as int), '-'),
            invariant
                0 <= start <= kp_len,
                kp_len == kp.len(),
                keys_part@ == kp,
                segments@.map_values(|k: String| k@) =~~= seen,
            ensures
                segments@.map_values(|k: String| k@) =~~= spec_split(kp, '-'),
            decreases kp_len - start,
        {
            // Find the next '-' at or after `start`.
            let mut j = start;
            let mut dash = false;
            while j < kp_len
                invariant_except_break
                    !dash,
                invariant
                    start <= j <= kp_len,
                    kp_len == kp.len(),
                    keys_part@ == kp,
                    forall|m: int| start <= m < j ==> kp[m] != '-',
                    dash ==> j < kp_len && kp[j as int] == '-',
                ensures
                    start <= j <= kp_len,
                    forall|m: int| start <= m < j ==> kp[m] != '-',
                    dash ==> j < kp_len && kp[j as int] == '-',
                    !dash ==> j == kp_len,
                decreases kp_len - j,
            {
                if keys_part.get_char(j) == '-' {
                    dash = true;
                    break;
                }
                j += 1;
            }
            if dash {
                let seg = keys_part.substring_char(start, j).to_owned();
                let ghost prior_seen = seen;
                let ghost prior_segs = segments@;
                proof {
                    let tail = kp.skip(start as int);
                    assert(tail[j - start] == kp[j as int]);
                    assert forall|m: int| 0 <= m < j - start implies tail[m] != '-' by {
                        assert(tail[m] == kp[start + m]);
                    }
                    lemma_split_at_first(tail, '-', j - start as int);
                    assert(tail.take(j - start) =~= seg@);
                    assert(tail.skip(j - start + 1) =~= kp.skip(j + 1));
                    seen = seen.push(seg@);
                    assert(prior_seen + (seq![seg@] + spec_split(kp.skip(j + 1), '-')) =~~= seen
                        + spec_split(kp.skip(j + 1), '-'));
                }
                segments.push(seg);
                proof {
                    assert(segments@.map_values(|k: String| k@) =~~= prior_segs.map_values(
                        |k: String| k@,
                    ).push(seg@));
                }
                start = j + 1;
            } else {
                let seg = keys_part.substring_char(start, kp_len).to_owned();
                let ghost prior_seen = seen;
                let ghost prior_segs = segments@;
                proof {
                    let tail = kp.skip(start as int);
                    assert forall|m: int| 0 <= m < tail.len() implies tail[m] != '-' by {
                        assert(tail[m] == kp[start + m]);
                    }
                    lemma_split_no_sep(tail, '-');
                    assert(tail =~= seg@);
                    seen = seen.push(seg@);
                    assert(prior_seen + seq![seg@] =~~= seen);
                    assert(spec_split(kp, '-') =~~= seen);
                }
                segments.push(seg);
                proof {
                    assert(segments@.map_values(|k: String| k@) =~~= prior_segs.map_values(
                        |k: String| k@,
                    ).push(seg@));
                }
                break;
            }
        }

        // The first segment names the modifier; the rest are the keys.
        proof {
            lemma_split_nonempty(kp, '-');
        }
        let token = &segments[0];
        let special_key = if token.as_str().unicode_len() == 1 {
            let c = token.as_str().get_char(0);
            proof {
                assert(token@ =~= seq![token@[0]]);
            }
            if c == 'M' {
                Some(SpecialKey::ModKey)
            } else if c == 'S' {
                Some(SpecialKey::ShiftKey)
            } else if c == 'C' {
                Some(SpecialKey::ControlKey)
            } else if c == 'A' {
                Some(SpecialKey::AltKey)
            } else {
                None
            }
        } else {
            None
        };
        let ghost segs0 = segments@;
        let mut keys: Vec<String> = Vec::new();
        let mut t: usize = 1;
        while t < segments.len()
            invariant
                1 <= t <= segments@.len(),
                segments@ == segs0,
                keys@.map_values(|k: String| k@) =~~= segs0.map_values(|k: String| k@).subrange(
                    1,
                    t as int,
                ),
            decreases segments@.len() - t,
        {
            let k = segments[t].clone();
            proof {
                assert(k@ == segs0.map_values(|q: String| q@)[t as int]);
                assert(segs0.map_values(|q: String| q@).subrange(1, t + 1) =~= segs0.map_values(
                    |q: String| q@,
                ).subrange(1, t as int).push(k@));
            }
            keys.push(k);
            t += 1;
        }
        proof {
            let m = segs0.map_values(|q: String| q@);
            assert(m.subrange(1, m.len() as int) =~= m.drop_first());
        }
        let r = Keybind { special_key, keys, command };
        proof {
            let i = sep as int;
            assert(spec_split(kp, '-')[0] == segs0.map_values(|q: String| q@)[0]);
            assert(kp =~= keybind@.take(i));
            assert(spec_sep_at(keybind@, i) && keybind_parse_ok(keybind@, i, r));
        }
        r
    }
}

/// Whether `c` is a whitespace character (the Unicode `White_Space` set),
/// the characters key-name trimming removes.
pub open spec fn spec_is_space(c: char) -> bool {
    ||| c == ' '
    ||| c == '\t'
    ||| c == '\n'
    ||| c == '\r'
    ||| c == '\u{0b}'
    ||| c == '\u{0c}'
    ||| c == '\u{85}'
    ||| c == '\u{a0}'
    ||| c == '\u{1680}'
    ||| ('\u{2000}' as u32 <= c as u32 && c as u32 <= '\u{200a}' as u32)
    ||| c == '\u{2028}'
    ||| c == '\u{2029}'
    ||| c == '\u{202f}'
    ||| c == '\u{205f}'
    ||| c == '\u{3000}'
}

/// Executable whitespace test matching `spec_is_space`.
fn is_space(c: char) -> (r: bool)
    ensures
        r == spec_is_space(c),
{
    c == ' ' || c == '\t' || c == '\n' || c == '\r' || c == '\u{0b}' || c == '\u{0c}' || c
        == '\u{85}' || c == '\u{a0}' || c == '\u{1680}' || (c as u32 >= 0x2000 && c as u32
        <= 0x200a) || c == '\u{2028}' || c == '\u{2029}' || c == '\u{202f}' || c == '\u{205f}' || c
        == '\u{3000}'
}

/// ASCII upper-casing of one character: lowercase ASCII letters are mapped
/// to their uppercase forms, every other character is unchanged.
pub open spec fn spec_upper_char(c: char) -> char {
    if 'a' as u32 <= c as u32 && c as u32 <= 'z' as u32 {
        ((c as u8) - 32) as char
    } else {
        c
    }
}

/// Sum of the bytes of the UTF-8 encoding of `c`, written out from the
/// code point: one byte below 0x80, two below 0x800, three below 0x10000,
/// four otherwise, each with its leading-bit tag added in.
pub open spec fn spec_char_utf8_sum(c: char) -> int {
    let p = c as int;
    if p < 0x80 {
        p
    } else if p < 0x800 {
        (0xc0 + p / 0x40) + (0x80 + p % 0x40)
    } else if p < 0x10000 {
        (0xe0 + p / 0x1000) + (0x80 + (p / 0x40) % 0x40) + (0x80 + p % 0x40)
    } else {
        (0xf0 + p / 0x40000) + (0x80 + (p / 0x1000) % 0x40) + (0x80 + (p / 0x40) % 0x40) + (0x80 + p
            % 0x40)
    }
}

/// The keycode of one key name: the byte sum of the UTF-8 encoding of the
/// trimmed name with every character ASCII-uppercased.
pub open spec fn spec_key_value(s: Seq<char>) -> int
    decreases s.len(),
{
    if s.len() == 0 {
        0
    } else {
        spec_key_value(s.drop_last()) + spec_char_utf8_sum(spec_upper_char(s.last()))
    }
}

/// A key name with leading and trailing whitespace removed: the characters
/// from the first to the last non-whitespace position.
pub open spec fn spec_trim(s: Seq<char>) -> Seq<char> {
    if forall|i: int| 0 <= i < s.len() ==> spec_is_space(s[i]) {
        Seq::empty()
    } else {
        let a = choose|a: int|
            0 <= a < s.len() && !spec_is_space(s[a]) && (forall|i: int|
                0 <= i < a ==> spec_is_space(s[i]));
        let b = choose|b: int|
            0 <= b < s.len() && !spec_is_space(s[b]) && (forall|i: int|
                b < i < s.len() ==> spec_is_space(s[i]));
        s.subrange(a, b + 1)
    }
}

/// Executable byte sum of the UTF-8 encoding of one character.
fn char_utf8_sum(c: char) -> (r: u32)
    ensures
        r == spec_char_utf8_sum(c),
        r < 1024,
{
    let p = c as u32;
    if p < 0x80 {
        p
    } else if p < 0x800 {
        (0xc0 + p / 0x40) + (0x80 + p % 0x40)
    } else if p < 0x10000 {
        (0xe0 + p / 0x1000) + (0x80 + (p / 0x40) % 0x40) + (0x80 + p % 0x40)
    } else {
        assert(p <= 0x10ffff);
        (0xf0 + p / 0x40000) + (0x80 + (p / 0x1000) % 0x40) + (0x80 + (p / 0x40) % 0x40) + (0x80 + p
            % 0x40)
    }
}

/// ASCII-uppercase one character.
fn upper_char(c: char) -> (r: char)
    ensures
        r == spec_upper_char(c),
{
    if c >= 'a' && c <= 'z' {
        ((c as u8) - 32) as char
    } else {
        c
    }
}

/// The keycode of one key name: trim it, ASCII-uppercase it, and sum the
/// UTF-8 bytes of what is left.
fn key_to_keycode(key: &str) -> (code: u32)
    requires
        key@.len() <= 0x20_0000,
    ensures
        code == spec_key_value(spec_trim(key@)),
{
    let n = key.unicode_len();
    // First non-whitespace position.
    let mut a: usize = 0;
    loop
        invariant
            0 <= a <= n,
            n == key@.len(),
            forall|i: int| 0 <= i < a ==> spec_is_space(key@[i]),
        ensures
            0 <= a <= n,
            forall|i: int| 0 <= i < a ==> spec_is_space(key@[i]),
            a < n ==> !spec_is_space(key@[a as int]),
        decreases n - a,
    {
        if a >= n {
            break;
        }
        if !is_space(key.get_char(a)) {
            break;
        }
        a += 1;
    }
    if a == n {
        proof {
            assert(spec_trim(key@) =~= Seq::<char>::empty());
        }
        return 0;
    }
    // Last non-whitespace position.
    let mut b = n - 1;
    loop
        invariant
            a <= b < n,
            n == key@.len(),
            forall|i: int| b < i < n ==> spec_is_space(key@[i]),
        ensures
            a <= b < n,
            forall|i: int| b < i < n ==> spec_is_space(key@[i]),
            b > a ==> !spec_is_space(key@[b as int]),
        decreases b,
    {
        if b <= a {
            break;
        }
        if !is_space(key.get_char(b)) {
            break;
        }
        b -= 1;
    }
    proof {
        assert(!spec_is_space(key@[a as int]));
        assert(!spec_is_space(key@[b as int]));
        let t = spec_trim(key@);
        let wa = choose|w: int|
            0 <= w < key@.len() && !spec_is_space(key@[w]) && (forall|i: int|
                0 <= i < w ==> spec_is_space(key@[i]));
        let wb = choose|w: int|
            0 <= w < key@.len() && !spec_is_space(key@[w]) && (forall|i: int|
                w < i < key@.len() ==> spec_is_space(key@[i]));
        assert(wa == a as int);
        assert(wb == b as int);
        assert(t =~= key@.subrange(a as int, b + 1));
    }
    let trimmed = key.substring_char(a, b + 1);
    let ghost t = trimmed@;
    let m = b + 1 - a;
    let mut sum: u32 = 0;
    let mut i: usize = 0;
    while i < m
        invariant
            0 <= i <= m,
            m == t.len(),
            trimmed@ == t,
            t.len() <= 0x20_0000,
            sum == spec_key_value(t.take(i as int)),
            sum <= 1024 * i,
        decreases m - i,
    {
        let c = trimmed.get_char(i);
        let v = char_utf8_sum(upper_char(c));
        proof {
            assert(t.take(i + 1).drop_last() =~= t.take(i as int));
            assert(t.take(i + 1).last() == t[i as int]);
        }
        sum = sum + v;
        i += 1;
    }
    proof {
        assert(t.take(t.len() as int) =~= t);
    }
    sum
}

/// Keycodes for a list of key names.  Each name is trimmed,
/// ASCII-uppercased, and summed over the bytes of its UTF-8 encoding; names
/// longer than two million characters are ruled out so the 32-bit sums
/// cannot overflow.
pub fn keys_to_keycodes(keys: Vec<String>) -> (codes: Vec<u32>)
    requires
        forall|i: int| 0 <= i < keys@.len() ==> (#[trigger] keys@[i])@.len() <= 0x20_0000,
    ensures
        codes@.len() == keys@.len(),
        forall|i: int|
            0 <= i < keys@.len() ==> codes@[i] == spec_key_value(spec_trim((#[trigger] keys@[i])@)),
{
    let mut codes: Vec<u32> = Vec::new();
    let mut i: usize = 0;
    while i < keys.len()
        invariant
            0 <= i <= keys@.len(),
            codes@.len() == i,
            forall|k: int| 0 <= k < keys@.len() ==> (#[trigger] keys@[k])@.len() <= 0x20_0000,
            forall|k: int|
                0 <= k < i ==> codes@[k] == spec_key_value(spec_trim((#[trigger] keys@[k])@)),
        decreases keys@.len() - i,
    {
        let code = key_to_keycode(keys[i].as_str());
        codes.push(code);
        i += 1;
    }
    codes
}

/// The `[defaults]` section of the configuration: the terminal and the
/// launcher command.
#[derive(Clone, Debug)]
pub struct Defaults {
    pub terminal: String,
    pub launcher: String,
}

/// The top-level configuration.
#[derive(Clone, Debug)]
pub struct CorrosionConfig {
    defaults: Defaults,
}

impl CorrosionConfig {
    /// The `[defaults]` section, as contracts speak of it.
    pub closed spec fn spec_defaults(&self) -> Defaults {
        self.defaults
    }

    /// Build a configuration around an already-loaded `[defaults]` section.
    pub fn from_defaults(defaults: Defaults) -> (r: CorrosionConfig)
        ensures
            r.spec_defaults() == defaults,
    {
        CorrosionConfig { defaults }
    }

    /// The `[defaults]` section.
    pub fn get_defaults(&self) -> (d: &Defaults)
        ensures
            *d == self.spec_defaults(),
    {
        &self.defaults
    }
}

impl Default for CorrosionConfig {
    /// The hard-coded fallback configuration: terminal `kitty`, launcher
    /// `wofi --show drun`.
    fn default() -> (r: CorrosionConfig)
        ensures
            r.spec_defaults().terminal@ == "kitty"@,
            r.spec_defaults().launcher@ == "wofi --show drun"@,
    {
        CorrosionConfig {
            defaults: Defaults {
                terminal: "kitty".to_owned(),
                launcher: "wofi --show drun".to_owned(),
            },
        }
    }
}

} // verus!
