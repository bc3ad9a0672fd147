//! Answers typed at the command-line prompts: the line without the white
//! space around it, a default for a blank answer, and a pick from a
//! numbered menu.

use vstd::prelude::*;

verus! {

/// Unicode's White_Space property, the characters that `char::is_whitespace`
/// accepts and `str::trim` cuts away.
pub open spec fn is_white_space(c: char) -> bool {
    let u = c as u32;
    ||| 0x09 <= u <= 0x0d
    ||| u == 0x20
    ||| u == 0x85
    ||| u == 0xa0
    ||| u == 0x1680
    ||| 0x2000 <= u <= 0x200a
    ||| u == 0x2028
    ||| u == 0x2029
    ||| u == 0x202f
    ||| u == 0x205f
    ||| u == 0x3000
}

/// The index of the first character at or after `i` that is not white space
/// (the length of `s` when there is none).
pub open spec fn first_solid(s: Seq<char>, i: int) -> int
    decreases s.len() - i,
{
    if 0 <= i < s.len() && is_white_space(s[i]) {
        first_solid(s, i + 1)
    } else {
        i
    }
}

/// One past the last character before `j` and not before `lo` that is not
/// white space (`lo` when there is none).
pub open spec fn end_solid(s: Seq<char>, lo: int, j: int) -> int
    decreases j - lo,
{
    if lo < j && is_white_space(s[j - 1]) {
        end_solid(s, lo, j - 1)
    } else {
        j
    }
}

/// `s` without the white space at its start and at its end.
pub open spec fn trim(s: Seq<char>) -> Seq<char> {
    let a = first_solid(s, 0);
    s.subrange(a, end_solid(s, a, s.len() as int))
}

/// The value of a run of ASCII digits, read in base ten.
pub open spec fn decimal_value(digits: Seq<char>) -> nat
    decreases digits.len(),
{
    if digits.len() == 0 {
        0
    } else {
        decimal_value(digits.drop_last()) * 10 + (digits.last() as u32 - 48) as nat
    }
}

pub open spec fn is_digit(c: char) -> bool {
    '0' <= c <= '9'
}

pub open spec fn all_digits(s: Seq<char>) -> bool {
    forall|k: int| 0 <= k < s.len() ==> is_digit(#[trigger] s[k])
}

/// What `usize::from_str` reads from `s`, as an unbounded number: an optional
/// `+` followed by one or more ASCII digits; `None` for any other text.
pub open spec fn spec_parse_decimal(s: Seq<char>) -> Option<nat> {
    let digits = if s.len() > 0 && s[0] == '+' {
        s.drop_first()
    } else {
        s
    };
    if digits.len() > 0 && all_digits(digits) {
        Some(decimal_value(digits))
    } else {
        None
    }
}

/// Leading zeros do not change a number, and a leading `+` reads the same
/// number as the digits alone.
pub proof fn law_decimal_reading(digits: Seq<char>)
    requires
        all_digits(digits),
    ensures
        decimal_value(seq!['0'] + digits) == decimal_value(digits),
        digits.len() > 0 ==> spec_parse_decimal(seq!['+'] + digits) == spec_parse_decimal(digits),
        digits.len() > 0 ==> spec_parse_decimal(digits) == Some(decimal_value(digits)),
    decreases digits.len(),
{
    let z = seq!['0'] + digits;
    if digits.len() == 0 {
        assert(z.drop_last() =~= Seq::<char>::empty());
        assert(z.last() == '0');
        assert(('0' as u32) == 48u32);
        assert(decimal_value(z.drop_last()) == 0);
    } else {
        assert(all_digits(digits.drop_last())) by {
            assert forall|k: int| 0 <= k < digits.drop_last().len() implies is_digit(
                #[trigger] digits.drop_last()[k],
            ) by {
                assert(digits.drop_last()[k] == digits[k]);
            }
        }
        law_decimal_reading(digits.drop_last());
        assert(z.drop_last() =~= seq!['0'] + digits.drop_last());
        assert(z.last() == digits.last());
        assert(digits[0] != '+') by {
            assert(is_digit(digits[0]));
        }
        let p = seq!['+'] + digits;
        assert(p.drop_first() =~= digits);
    }
}

/// White space at either end of a line does not change what it reads as:
/// the cut line starts and ends with a character that is not white space,
/// and it is the stretch of the line between two runs of white space.
pub proof fn law_trim_cuts_only_white_space(s: Seq<char>)
    ensures
        trim(s).len() == 0 || (!is_white_space(trim(s)[0]) && !is_white_space(trim(s).last())),
        0 <= first_solid(s, 0) <= end_solid(s, first_solid(s, 0), s.len() as int) <= s.len(),
        trim(s) == s.subrange(first_solid(s, 0), end_solid(s, first_solid(s, 0), s.len() as int)),
        forall|k: int| 0 <= k < first_solid(s, 0) ==> is_white_space(s[k]),
        forall|k: int|
            end_solid(s, first_solid(s, 0), s.len() as int) <= k < s.len() ==> is_white_space(
                s[k],
            ),
{
    lemma_first_solid(s, 0);
    let a = first_solid(s, 0);
    lemma_end_solid(s, a, s.len() as int);
}

proof fn lemma_first_solid(s: Seq<char>, i: int)
    requires
        0 <= i <= s.len(),
    ensures
        i <= first_solid(s, i) <= s.len(),
        forall|k: int| i <= k < first_solid(s, i) ==> is_white_space(s[k]),
        first_solid(s, i) < s.len() ==> !is_white_space(s[first_solid(s, i)]),
    decreases s.len() - i,
{
    if i < s.len() && is_white_space(s[i]) {
        lemma_first_solid(s, i + 1);
    }
}

proof fn lemma_end_solid(s: Seq<char>, lo: int, j: int)
    requires
        0 <= lo <= j <= s.len(),
        lo < s.len() ==> !is_white_space(s[lo]),
    ensures
        lo <= end_solid(s, lo, j) <= j,
        forall|k: int| end_solid(s, lo, j) <= k < j ==> is_white_space(s[k]),
        lo < end_solid(s, lo, j) ==> !is_white_space(s[end_solid(s, lo, j) - 1]),
        lo == end_solid(s, lo, j) ==> forall|k: int| lo <= k < j ==> is_white_space(s[k]),
    decreases j - lo,
{
    if lo < j && is_white_space(s[j - 1]) {
        lemma_end_solid(s, lo, j - 1);
    }
}

/// The answer to a numbered menu.
#[derive(Debug, Clone, Copy, PartialEq, Eq, Structural)]
pub enum MenuChoice {
    /// A blank answer: leave without choosing.
    Cancel,
    /// Not a number of the menu.
    Invalid,
    /// The entry with this number, counted from 1.
    Pick(usize),
}

/// The answer `line` gives to a menu of `count` entries numbered from 1.
pub open spec fn spec_menu_choice(line: Seq<char>, count: usize) -> MenuChoice {
    let t = trim(line);
    if t.len() == 0 {
        MenuChoice::Cancel
    } else {
        match spec_parse_decimal(t) {
            Some(n) => if 1 <= n <= count {
                MenuChoice::Pick(n as usize)
            } else {
                MenuChoice::Invalid
            },
            None => MenuChoice::Invalid,
        }
    }
}

fn white_space(c: char) -> (r: bool)
    ensures
        r == is_white_space(c),
{
    let u = c as u32;
    (0x09 <= u && u <= 0x0d) || u == 0x20 || u == 0x85 || u == 0xa0 || u == 0x1680 || (0x2000
        <= u && u <= 0x200a) || u == 0x2028 || u == 0x2029 || u == 0x202f || u == 0x205f || u
        == 0x3000
}

/// `line` without the white space around it.
pub fn trimmed(line: &str) -> (t: &str)
    ensures
        t@ == trim(line@),
{
    let n = line.unicode_len();
    let mut i: usize = 0;
    while i < n && white_space(line.get_char(i))
        invariant
            n == line@.len(),
            i <= n,
            first_solid(line@, i as int) == first_solid(line@, 0),
        decreases n - i,
    {
        i = i + 1;
    }
    let mut j: usize = n;
    while i < j && white_space(line.get_char(j - 1))
        invariant
            n == line@.len(),
            i <= j <= n,
            i == first_solid(line@, 0),
            end_solid(line@, i as int, j as int) == end_solid(line@, i as int, n as int),
        decreases j - i,
    {
        j = j - 1;
    }
    line.substring_char(i, j)
}

/// The answer to a prompt: the typed line without the white space around it,
/// or `default` when nothing but white space was typed.
pub fn or_default(line: &str, default: &str) -> (answer: String)
    ensures
        answer@ == (if trim(line@).len() == 0 {
            default@
        } else {
            trim(line@)
        }),
{
    let t = trimmed(line);
    if t.unicode_len() == 0 {
        String::from_str(default)
    } else {
        String::from_str(t)
    }
}

proof fn lemma_value_grows(s: Seq<char>, k: int)
    requires
        0 <= k <= s.len(),
    ensures
        decimal_value(s.subrange(0, k)) <= decimal_value(s),
    decreases s.len() - k,
{
    if k < s.len() {
        lemma_value_grows(s, k + 1);
        assert(s.subrange(0, k + 1).drop_last() =~= s.subrange(0, k));
    } else {
        assert(s.subrange(0, k) =~= s);
    }
}

/// Read the answer `line` to a menu of `count` entries numbered from 1.
pub fn menu_choice(line: &str, count: usize) -> (choice: MenuChoice)
    ensures
        choice == spec_menu_choice(line@, count),
        choice matches MenuChoice::Pick(n) ==> 1 <= n <= count,
{
    let t = trimmed(line);
    let n = t.unicode_len();
    if n == 0 {
        return MenuChoice::Cancel;
    }
    let ghost s = t@;
    let mut start: usize = 0;
    if t.get_char(0) == '+' {
        start = 1;
    }
    let ghost digits = if s.len() > 0 && s[0] == '+' {
        s.drop_first()
    } else {
        s
    };
    assert(digits =~= s.subrange(start as int, n as int));
    if start == n {
        return MenuChoice::Invalid;
    }
    let mut value: usize = 0;
    let mut i: usize = start;
    while i < n
        invariant
            s == t@,
            s == trim(line@),
            n == s.len(),
            digits == (if s.len() > 0 && s[0] == '+' {
                s.drop_first()
            } else {
                s
            }),
            digits.len() > 0,
            start <= i <= n,
            digits =~= s.subrange(start as int, n as int),
            all_digits(s.subrange(start as int, i as int)),
            value as nat == decimal_value(s.subrange(start as int, i as int)),
            value <= count,
        decreases n - i,
    {
        let c = t.get_char(i);
        if !('0' <= c && c <= '9') {
            assert(digits[i - start] == c);
            return MenuChoice::Invalid;
        }
        let d = (c as u32 - 48) as u128;
        let next: u128 = value as u128 * 10 + d;
        let ghost pre = s.subrange(start as int, i as int);
        let ghost post = s.subrange(start as int, i + 1);
        assert(post.drop_last() =~= pre);
        assert(post.last() == c);
        if next > count as u128 {
            proof {
                if all_digits(digits) {
                    assert(post =~= digits.subrange(0, (i + 1 - start) as int));
                    lemma_value_grows(digits, (i + 1 - start) as int);
                }
            }
            return MenuChoice::Invalid;
        }
        value = next as usize;
        i = i + 1;
        assert(all_digits(post)) by {
            assert forall|k: int| 0 <= k < post.len() implies is_digit(#[trigger] post[k]) by {
                if k < pre.len() {
                    assert(post[k] == pre[k]);
                }
            }
        }
    }
    assert(digits =~= s.subrange(start as int, i as int));
    if value == 0 {
        MenuChoice::Invalid
    } else {
        MenuChoice::Pick(value)
    }
}

} // verus!
