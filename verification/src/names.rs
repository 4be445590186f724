use vstd::prelude::*;
use vstd::string::*;

verus! {

// ---------------------------------------------------------------------------
// Decimal digit strings
// ---------------------------------------------------------------------------

/// Decimal digit characters.
pub open spec fn is_digit(c: char) -> bool {
    '0' <= c && c <= '9'
}

/// Numeric value of a single digit character.
pub open spec fn digit_val(c: char) -> int
    recommends
        is_digit(c),
{
    c as int - '0' as int
}

/// The digit character for a value below ten.
pub open spec fn digit_char(d: int) -> char
    recommends
        0 <= d < 10,
{
    if d == 0 {
        '0'
    } else if d == 1 {
        '1'
    } else if d == 2 {
        '2'
    } else if d == 3 {
        '3'
    } else if d == 4 {
        '4'
    } else if d == 5 {
        '5'
    } else if d == 6 {
        '6'
    } else if d == 7 {
        '7'
    } else if d == 8 {
        '8'
    } else {
        '9'
    }
}

/// Every character of `s` is a decimal digit.
pub open spec fn all_digits(s: Seq<char>) -> bool {
    forall|i: int| 0 <= i < s.len() ==> is_digit(#[trigger] s[i])
}

/// Numeric value of a digit string, most significant digit first.
pub open spec fn digits_val(s: Seq<char>) -> int
    decreases s.len(),
{
    if s.len() == 0 {
        0
    } else {
        digits_val(s.drop_last()) * 10 + digit_val(s.last())
    }
}

/// The decimal digits of `n`, left-padded with zeros to at least `width` characters.
pub open spec fn padded_digits(n: nat, width: nat) -> Seq<char>
    decreases n, width,
{
    if n == 0 && width == 0 {
        Seq::empty()
    } else {
        padded_digits(n / 10, if width > 0 { (width - 1) as nat } else { 0 }).push(
            digit_char((n % 10) as int),
        )
    }
}

/// A padded digit string is made of digits, is at least `width` long,
/// and reads back as the number it was made from.
pub proof fn lemma_padded_digits(n: nat, width: nat)
    ensures
        all_digits(padded_digits(n, width)),
        padded_digits(n, width).len() >= width,
        digits_val(padded_digits(n, width)) == n,
    decreases n, width,
{
    if n == 0 && width == 0 {
    } else {
        let w2: nat = if width > 0 { (width - 1) as nat } else { 0 };
        lemma_padded_digits(n / 10, w2);
        let rest = padded_digits(n / 10, w2);
        let whole = padded_digits(n, width);
        assert(whole == rest.push(digit_char((n % 10) as int)));
        assert(whole.drop_last() =~= rest);
        assert(digit_val(digit_char((n % 10) as int)) == n % 10);
        assert(digits_val(whole) == digits_val(rest) * 10 + n % 10);
        assert(n / 10 * 10 + n % 10 == n) by (nonlinear_arith);
        assert forall|i: int| 0 <= i < whole.len() implies is_digit(#[trigger] whole[i]) by {
            if i < rest.len() {
                assert(whole[i] == rest[i]);
            } else {
                assert(whole[i] == digit_char((n % 10) as int));
            }
        }
    }
}

/// A digit string evaluates to a nonnegative number.
pub proof fn lemma_digits_val_nonneg(s: Seq<char>)
    requires
        all_digits(s),
    ensures
        digits_val(s) >= 0,
    decreases s.len(),
{
    if s.len() > 0 {
        assert(all_digits(s.drop_last()));
        lemma_digits_val_nonneg(s.drop_last());
    }
}

/// Reading more digits never lowers the value: a prefix of an
/// all-digit string is at most the whole string's value.
pub proof fn lemma_digits_val_prefix_le(s: Seq<char>, k: int)
    requires
        all_digits(s),
        0 <= k <= s.len(),
    ensures
        digits_val(s.take(k)) <= digits_val(s),
    decreases s.len() - k,
{
    if k < s.len() {
        let t = s.take(k + 1);
        assert(t.drop_last() =~= s.take(k));
        assert(all_digits(s.take(k)));
        lemma_digits_val_nonneg(s.take(k));
        assert(digits_val(t) == digits_val(s.take(k)) * 10 + digit_val(s[k]));
        lemma_digits_val_prefix_le(s, k + 1);
    } else {
        assert(s.take(k) =~= s);
    }
}

/// A one-character string slice holding the given digit.
fn digit_str(d: u32) -> (r: &'static str)
    requires
        d < 10,
    ensures
        r@ =~= seq![digit_char(d as int)],
{
    proof {
        reveal_strlit("0");
        reveal_strlit("1");
        reveal_strlit("2");
        reveal_strlit("3");
        reveal_strlit("4");
        reveal_strlit("5");
        reveal_strlit("6");
        reveal_strlit("7");
        reveal_strlit("8");
        reveal_strlit("9");
    }
    match d {
        0 => "0",
        1 => "1",
        2 => "2",
        3 => "3",
        4 => "4",
        5 => "5",
        6 => "6",
        7 => "7",
        8 => "8",
        _ => "9",
    }
}

/// Renders `n` in decimal, zero-padded to at least `width` characters.
pub fn format_padded(n: u32, width: u8) -> (r: String)
    ensures
        r@ == padded_digits(n as nat, width as nat),
    decreases n, width,
{
    if n == 0 && width == 0 {
        String::new()
    } else {
        let w2: u8 = if width > 0 { width - 1 } else { 0 };
        let mut s = format_padded(n / 10, w2);
        let d = digit_str(n % 10);
        s.append(d);
        proof {
            assert(s@ =~= padded_digits((n / 10) as nat, w2 as nat).push(
                digit_char((n % 10) as int),
            ));
        }
        s
    }
}

/// Parses a nonempty all-digit string as a number, if its value fits.
pub fn parse_number(s: &str) -> (r: Option<u32>)
    ensures
        match r {
            Some(v) => s@.len() > 0 && all_digits(s@) && digits_val(s@) == v as int,
            None => s@.len() == 0 || !all_digits(s@) || digits_val(s@) > u32::MAX,
        },
{
    let len = s.unicode_len();
    if len == 0 {
        return None;
    }
    let mut i: usize = 0;
    let mut acc: u64 = 0;
    while i < len
        invariant
            0 <= i <= len,
            len == s@.len(),
            all_digits(s@.take(i as int)),
            acc as int == digits_val(s@.take(i as int)),
            acc <= u32::MAX as u64,
        decreases len - i,
    {
        let c = s.get_char(i);
        if c < '0' || c > '9' {
            assert(!is_digit(s@[i as int]));
            return None;
        }
        let d: u32 = (c as u32) - 48;
        proof {
            assert(s@.take(i + 1).drop_last() =~= s@.take(i as int));
            assert(s@.take(i + 1).last() == s@[i as int]);
            assert(digit_val(s@[i as int]) == d as int);
        }
        acc = acc * 10 + (d as u64);
        assert(acc as int == digits_val(s@.take(i + 1)));
        if acc > u32::MAX as u64 {
            proof {
                if all_digits(s@) {
                    lemma_digits_val_prefix_le(s@, i + 1);
                }
            }
            return None;
        }
        i += 1;
    }
    proof {
        assert(s@.take(len as int) =~= s@);
    }
    Some(acc as u32)
}

// ---------------------------------------------------------------------------
// Artifact names
// ---------------------------------------------------------------------------

/// Name of the active phrase artifact.
pub open spec fn active_name() -> Seq<char> {
    seq!['p', 'h', 'r', 'a', 's', 'e', '.', 't', 'x', 't']
}

/// Prefix of every backup artifact name.
pub open spec fn backup_prefix() -> Seq<char> {
    seq!['p', 'h', 'r', 'a', 's', 'e', '.']
}

/// Suffix of every backup artifact name.
pub open spec fn backup_suffix() -> Seq<char> {
    seq!['.', 't', 'x', 't']
}

/// The name of backup slot `n`: prefix, zero-padded number, suffix.
pub open spec fn backup_name_spec(n: nat) -> Seq<char> {
    backup_prefix() + padded_digits(n, 3) + backup_suffix()
}

/// Is `s` shaped like a backup artifact name: the fixed prefix, then
/// some (possibly malformed) token, then the fixed suffix?
pub open spec fn is_backup_shaped(s: Seq<char>) -> bool {
    &&& s.len() >= 11
    &&& s.take(7) == backup_prefix()
    &&& s.skip(s.len() - 4) == backup_suffix()
}

/// The sequence number of a backup name, when its token is a numeric
/// one whose value fits; malformed tokens yield nothing.
pub open spec fn parse_backup_spec(s: Seq<char>) -> Option<int> {
    if is_backup_shaped(s) {
        let mid = s.subrange(7, s.len() - 4);
        if mid.len() > 0 && all_digits(mid) && digits_val(mid) <= u32::MAX {
            Some(digits_val(mid))
        } else {
            None
        }
    } else {
        None
    }
}

/// Two string slices hold the same characters.
pub fn str_eq(a: &str, b: &str) -> (r: bool)
    ensures
        r == (a@ == b@),
{
    let alen = a.unicode_len();
    let blen = b.unicode_len();
    if alen != blen {
        return false;
    }
    let mut i: usize = 0;
    while i < alen
        invariant
            0 <= i <= alen,
            alen == a@.len(),
            alen == b@.len(),
            forall|k: int| 0 <= k < i ==> a@[k] == b@[k],
        decreases alen - i,
    {
        if a.get_char(i) != b.get_char(i) {
            return false;
        }
        i += 1;
    }
    proof {
        assert(a@ =~= b@);
    }
    true
}

/// The active artifact's file name.
pub fn active_name_str() -> (r: &'static str)
    ensures
        r@ == active_name(),
{
    proof {
        reveal_strlit("phrase.txt");
        assert("phrase.txt"@ =~= active_name());
    }
    "phrase.txt"
}

/// Checks whether `name` is shaped like a backup artifact name.
pub fn is_backup_name(name: &str) -> (r: bool)
    ensures
        r == is_backup_shaped(name@),
{
    let len = name.unicode_len();
    if len < 11 {
        return false;
    }
    let pre = name.substring_char(0, 7);
    let okp = {
        proof {
            reveal_strlit("phrase.");
            assert("phrase."@ =~= backup_prefix());
        }
        str_eq(pre, "phrase.")
    };
    if !okp {
        proof {
            assert(name@.take(7) =~= pre@);
        }
        return false;
    }
    let suf = name.substring_char(len - 4, len);
    let oks = {
        proof {
            reveal_strlit(".txt");
            assert(".txt"@ =~= backup_suffix());
        }
        str_eq(suf, ".txt")
    };
    proof {
        assert(name@.take(7) =~= pre@);
        assert(name@.skip(name@.len() - 4) =~= suf@);
    }
    oks
}

/// Parses a backup artifact name into its sequence number.
pub fn parse_backup_name(name: &str) -> (r: Option<u32>)
    ensures
        match r {
            Some(v) => parse_backup_spec(name@) == Some(v as int),
            None => parse_backup_spec(name@) is None,
        },
{
    if !is_backup_name(name) {
        return None;
    }
    let len = name.unicode_len();
    let mid = name.substring_char(7, len - 4);
    proof {
        assert(name@.subrange(7, name@.len() - 4) =~= mid@);
    }
    parse_number(mid)
}

/// Builds the name of backup slot `n`.
pub fn backup_name(n: u32) -> (r: String)
    ensures
        r@ == backup_name_spec(n as nat),
{
    proof {
        reveal_strlit("phrase.");
        reveal_strlit(".txt");
        assert("phrase."@ =~= backup_prefix());
        assert(".txt"@ =~= backup_suffix());
    }
    let mut s = String::from_str("phrase.");
    let num = format_padded(n, 3);
    s.append(num.as_str());
    s.append(".txt");
    proof {
        assert(s@ =~= backup_name_spec(n as nat));
    }
    s
}

/// A well-formed backup name reads back as the number it was built from.
pub proof fn lemma_backup_name_round_trip(n: nat)
    requires
        n <= u32::MAX,
    ensures
        parse_backup_spec(backup_name_spec(n)) == Some(n as int),
{
    lemma_padded_digits(n, 3);
    let mid = padded_digits(n, 3);
    let s = backup_name_spec(n);
    assert(s.len() == 11 + mid.len());
    assert(s.take(7) =~= backup_prefix());
    assert(s.skip(s.len() - 4) =~= backup_suffix());
    assert(s.subrange(7, s.len() - 4) =~= mid);
}

/// No backup name is the active artifact's name.
pub proof fn lemma_backup_name_not_active(n: nat)
    ensures
        backup_name_spec(n) != active_name(),
{
    lemma_padded_digits(n, 3);
    assert(backup_name_spec(n).len() >= 14);
}

} // verus!
