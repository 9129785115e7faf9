//! Which maps belong to a rating category, decided from their weapon and
//! function tags.
use vstd::prelude::*;
use crate::text::{contains_text, has_substring, same_text};

verus! {

/// Reference data for one map: its name and its comma-joined tag lists.
pub struct MapInfo {
    pub name: String,
    pub weapons: String,
    pub functions: String,
}

/// Unicode `White_Space`, the characters that `str::trim` strips.
pub open spec fn is_space(c: char) -> bool {
    let u = c as u32;
    (0x9 <= u && u <= 0xD) || u == 0x20 || u == 0x85 || u == 0xA0 || u == 0x1680 || (0x2000
        <= u && u <= 0x200A) || u == 0x2028 || u == 0x2029 || u == 0x202F || u == 0x205F || u
        == 0x3000
}

pub open spec fn trim_start(t: Seq<char>) -> Seq<char>
    decreases t.len(),
{
    if t.len() > 0 && is_space(t[0]) {
        trim_start(t.subrange(1, t.len() as int))
    } else {
        t
    }
}

pub open spec fn trim_end(t: Seq<char>) -> Seq<char>
    decreases t.len(),
{
    if t.len() > 0 && is_space(t.last()) {
        trim_end(t.drop_last())
    } else {
        t
    }
}

/// `t` without surrounding white space.
pub open spec fn trimmed(t: Seq<char>) -> Seq<char> {
    trim_end(trim_start(t))
}

/// `s[i..j]` is one comma-separated token of `s`, before trimming.
pub open spec fn is_segment(s: Seq<char>, i: int, j: int) -> bool {
    &&& 0 <= i <= j <= s.len()
    &&& i == 0 || s[i - 1] == ','
    &&& j == s.len() || s[j] == ','
    &&& forall|k: int| i <= k < j ==> s[k] != ','
}

/// A trimmed weapon token that strafe maps may carry: empty, or `mg`, `sg`,
/// `gt` in any letter case.
pub open spec fn strafe_token(t: Seq<char>) -> bool {
    t.len() == 0 || (t.len() == 2 && (((t[0] == 'm' || t[0] == 'M') && (t[1] == 'g' || t[1]
        == 'G')) || ((t[0] == 's' || t[0] == 'S') && (t[1] == 'g' || t[1] == 'G')) || ((t[0]
        == 'g' || t[0] == 'G') && (t[1] == 't' || t[1] == 'T'))))
}

/// Every comma-separated token of the weapon tags, trimmed, is a strafe token.
pub open spec fn strafe_weapons(w: Seq<char>) -> bool {
    forall|i: int, j: int| #[trigger] is_segment(w, i, j) ==> strafe_token(trimmed(w.subrange(i, j)))
}

/// Whether a map with these tags belongs to `category`.
pub open spec fn category_matches(weapons: Seq<char>, functions: Seq<char>, category: Seq<char>) -> bool {
    if category == "overall"@ {
        true
    } else if category == "rocket"@ || category == "rl"@ {
        has_substring(weapons, "rl"@)
    } else if category == "plasma"@ || category == "pg"@ {
        has_substring(weapons, "pg"@)
    } else if category == "grenade"@ || category == "gl"@ {
        has_substring(weapons, "gl"@)
    } else if category == "bfg"@ {
        has_substring(weapons, "bfg"@)
    } else if category == "slick"@ {
        has_substring(functions, "slick"@)
    } else if category == "tele"@ {
        has_substring(functions, "tele"@)
    } else if category == "strafe"@ {
        strafe_weapons(weapons)
    } else {
        true
    }
}

proof fn lemma_trim_start(t: Seq<char>, a: int)
    requires
        0 <= a <= t.len(),
        forall|k: int| 0 <= k < a ==> is_space(t[k]),
        a == t.len() || !is_space(t[a]),
    ensures
        trim_start(t) == t.subrange(a, t.len() as int),
    decreases a,
{
    if a == 0 {
        assert(t.subrange(0, t.len() as int) =~= t);
    } else {
        let u = t.subrange(1, t.len() as int);
        lemma_trim_start(u, a - 1);
        assert(u.subrange(a - 1, u.len() as int) =~= t.subrange(a, t.len() as int));
    }
}

proof fn lemma_trim_end(t: Seq<char>, b: int)
    requires
        0 <= b <= t.len(),
        forall|k: int| b <= k < t.len() ==> is_space(t[k]),
        b == 0 || !is_space(t[b - 1]),
    ensures
        trim_end(t) == t.subrange(0, b),
    decreases t.len() - b,
{
    if b == t.len() {
        assert(t.subrange(0, b) =~= t);
    } else {
        let u = t.drop_last();
        lemma_trim_end(u, b);
        assert(u.subrange(0, b) =~= t.subrange(0, b));
    }
}

fn is_space_char(c: char) -> (r: bool)
    ensures
        r == is_space(c),
{
    let u = c as u32;
    (0x9 <= u && u <= 0xD) || u == 0x20 || u == 0x85 || u == 0xA0 || u == 0x1680 || (0x2000
        <= u && u <= 0x200A) || u == 0x2028 || u == 0x2029 || u == 0x202F || u == 0x205F || u
        == 0x3000
}

fn is_char_of(c: char, lower: char, upper: char) -> (r: bool)
    ensures
        r == (c == lower || c == upper),
{
    c == lower || c == upper
}

/// Whether the token `s[i..j]`, once trimmed, is a strafe token.
fn segment_is_strafe(s: &str, i: usize, j: usize, n: usize) -> (r: bool)
    requires
        i <= j <= n,
        n == s@.len(),
    ensures
        r == strafe_token(trimmed(s@.subrange(i as int, j as int))),
{
    let mut a = i;
    loop
        invariant
            i <= a <= j <= n,
            n == s@.len(),
            forall|k: int| i <= k < a ==> is_space(s@[k]),
        ensures
            i <= a <= j,
            forall|k: int| i <= k < a ==> is_space(s@[k]),
            a == j || !is_space(s@[a as int]),
        decreases j - a,
    {
        if a == j || !is_space_char(s.get_char(a)) {
            break;
        }
        a = a + 1;
    }
    let mut b = j;
    loop
        invariant
            a <= b <= j <= n,
            n == s@.len(),
            forall|k: int| b <= k < j ==> is_space(s@[k]),
        ensures
            a <= b <= j,
            forall|k: int| b <= k < j ==> is_space(s@[k]),
            b == a || !is_space(s@[b - 1]),
        decreases b - a,
    {
        if b == a || !is_space_char(s.get_char(b - 1)) {
            break;
        }
        b = b - 1;
    }
    proof {
        let t = s@.subrange(i as int, j as int);
        lemma_trim_start(t, a - i);
        let u = t.subrange(a - i, t.len() as int);
        lemma_trim_end(u, b - a);
        assert(u.subrange(0, b - a) =~= s@.subrange(a as int, b as int));
    }
    if b == a {
        true
    } else if b - a != 2 {
        false
    } else {
        let c0 = s.get_char(a);
        let c1 = s.get_char(a + 1);
        (is_char_of(c0, 'm', 'M') && is_char_of(c1, 'g', 'G')) || (is_char_of(c0, 's', 'S')
            && is_char_of(c1, 'g', 'G')) || (is_char_of(c0, 'g', 'G') && is_char_of(c1, 't', 'T'))
    }
}

/// Whether every weapon token of `w` is one that strafe maps may carry.
pub fn is_strafe_weapons(w: &str) -> (r: bool)
    ensures
        r == strafe_weapons(w@),
{
    let n = w.unicode_len();
    let mut start: usize = 0;
    loop
        invariant
            n == w@.len(),
            start <= n,
            start == 0 || w@[start - 1] == ',',
            forall|i: int, j: int| #[trigger]
                is_segment(w@, i, j) && i < start ==> strafe_token(trimmed(w@.subrange(i, j))),
        decreases n - start,
    {
        let mut j = start;
        loop
            invariant
                n == w@.len(),
                start <= j <= n,
                forall|k: int| start <= k < j ==> w@[k] != ',',
            ensures
                start <= j <= n,
                forall|k: int| start <= k < j ==> w@[k] != ',',
                j == n || w@[j as int] == ',',
            decreases n - j,
        {
            if j == n || w.get_char(j) == ',' {
                break;
            }
            j = j + 1;
        }
        assert(is_segment(w@, start as int, j as int));
        if !segment_is_strafe(w, start, j, n) {
            return false;
        }
        assert forall|i2: int, j2: int| #[trigger]
            is_segment(w@, i2, j2) && i2 <= j implies strafe_token(
            trimmed(w@.subrange(i2, j2)),
        ) by {
            if i2 >= start {
                if i2 > start {
                    assert(w@[i2 - 1] != ',');
                }
                assert(i2 == start);
                if j2 < j {
                    assert(w@[j2] != ',');
                }
                if j2 > j {
                    assert(w@[j as int] != ',');
                }
                assert(j2 == j);
            }
        }
        if j == n {
            return true;
        }
        start = j + 1;
    }
}

/// Whether `map` belongs to `category`. Unknown categories admit every map.
pub fn map_matches_category(map: &MapInfo, category: &str) -> (r: bool)
    ensures
        r == category_matches(map.weapons@, map.functions@, category@),
{
    let weapons = map.weapons.as_str();
    let functions = map.functions.as_str();
    if same_text(category, "overall") {
        true
    } else if same_text(category, "rocket") || same_text(category, "rl") {
        contains_text(weapons, "rl")
    } else if same_text(category, "plasma") || same_text(category, "pg") {
        contains_text(weapons, "pg")
    } else if same_text(category, "grenade") || same_text(category, "gl") {
        contains_text(weapons, "gl")
    } else if same_text(category, "bfg") {
        contains_text(weapons, "bfg")
    } else if same_text(category, "slick") {
        contains_text(functions, "slick")
    } else if same_text(category, "tele") {
        contains_text(functions, "tele")
    } else if same_text(category, "strafe") {
        is_strafe_weapons(weapons)
    } else {
        true
    }
}

} // verus!
