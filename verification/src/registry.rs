use vstd::prelude::*;
use vstd::string::*;
use vstd::seq_lib::*;
use vstd::multiset::Multiset;
use vstd::arithmetic::power::{lemma_pow_positive, pow};
use crate::names::{
    all_digits, backup_name_spec, backup_prefix, backup_suffix, digit_val, digits_val,
    is_backup_shaped, lemma_digits_val_nonneg, lemma_padded_digits, padded_digits,
    parse_backup_name, parse_backup_spec, is_backup_name, str_eq,
};

verus! {

// ---------------------------------------------------------------------------
// Sequence numbering
// ---------------------------------------------------------------------------

/// Sequence number of a name when it parses as a backup name, zero otherwise.
pub open spec fn number_or_zero(s: Seq<char>) -> int {
    match parse_backup_spec(s) {
        Some(v) => v,
        None => 0,
    }
}

/// The highest sequence number among the given names, zero when none parses.
pub open spec fn highest_number(names: Seq<Seq<char>>) -> int
    decreases names.len(),
{
    if names.len() == 0 {
        0
    } else {
        let rest = highest_number(names.drop_last());
        let last = number_or_zero(names.last());
        if last > rest {
            last
        } else {
            rest
        }
    }
}

/// A parsed backup number is a `u32` value.
pub proof fn lemma_parse_backup_bounds(s: Seq<char>)
    ensures
        parse_backup_spec(s) matches Some(v) ==> 0 <= v <= u32::MAX,
{
    if parse_backup_spec(s) is Some {
        let mid = s.subrange(7, s.len() - 4);
        lemma_digits_val_nonneg(mid);
    }
}

/// The highest number is a `u32` value, and no listed name exceeds it.
pub proof fn lemma_highest_number(names: Seq<Seq<char>>)
    ensures
        0 <= highest_number(names) <= u32::MAX,
        forall|i: int|
            0 <= i < names.len() ==> number_or_zero(#[trigger] names[i]) <= highest_number(names),
    decreases names.len(),
{
    if names.len() == 0 {
    } else {
        lemma_highest_number(names.drop_last());
        lemma_parse_backup_bounds(names.last());
        assert forall|i: int|
            0 <= i < names.len() implies number_or_zero(#[trigger] names[i]) <= highest_number(
            names,
        ) by {
            if i < names.len() - 1 {
                assert(names.drop_last()[i] == names[i]);
            }
        }
    }
}

/// Computes the next backup sequence number: one more than the highest
/// number in use among `names`, so existing numbers are never reused
/// and gaps are not filled. Returns nothing only when the next number
/// would not fit in a `u32`.
pub fn next_backup_number(names: &Vec<String>) -> (r: Option<u32>)
    ensures
        match r {
            Some(v) => v as int == highest_number(names.deep_view()) + 1,
            None => highest_number(names.deep_view()) == u32::MAX,
        },
{
    let ghost dv = names.deep_view();
    let mut highest: u32 = 0;
    let mut i: usize = 0;
    proof {
        assert(dv.take(0) =~= Seq::<Seq<char>>::empty());
    }
    while i < names.len()
        invariant
            0 <= i <= names.len(),
            dv == names.deep_view(),
            dv.len() == names.len(),
            highest as int == highest_number(dv.take(i as int)),
        decreases names.len() - i,
    {
        proof {
            assert(dv[i as int] == names@[i as int]@);
        }
        match parse_backup_name(names[i].as_str()) {
            Some(n) => {
                if n > highest {
                    highest = n;
                }
            },
            None => {},
        }
        proof {
            assert(dv.take(i + 1).drop_last() =~= dv.take(i as int));
            assert(dv.take(i + 1).last() == dv[i as int]);
        }
        i += 1;
    }
    proof {
        assert(dv.take(names.len() as int) =~= dv);
    }
    if highest == u32::MAX {
        None
    } else {
        Some(highest + 1)
    }
}

// ---------------------------------------------------------------------------
// Listing
// ---------------------------------------------------------------------------

/// Lexicographic order on character sequences, by code point.
pub open spec fn lex_leq(a: Seq<char>, b: Seq<char>) -> bool
    decreases a.len(),
{
    if a.len() == 0 {
        true
    } else if b.len() == 0 {
        false
    } else if (a.first() as u32) < (b.first() as u32) {
        true
    } else if (a.first() as u32) > (b.first() as u32) {
        false
    } else {
        lex_leq(a.drop_first(), b.drop_first())
    }
}

/// Any two character sequences are ordered one way or the other.
pub proof fn lemma_lex_total(a: Seq<char>, b: Seq<char>)
    ensures
        lex_leq(a, b) || lex_leq(b, a),
    decreases a.len(),
{
    if a.len() > 0 && b.len() > 0 && (a.first() as u32) == (b.first() as u32) {
        lemma_lex_total(a.drop_first(), b.drop_first());
    }
}

/// Lexicographic order is transitive.
pub proof fn lemma_lex_trans(a: Seq<char>, b: Seq<char>, c: Seq<char>)
    requires
        lex_leq(a, b),
        lex_leq(b, c),
    ensures
        lex_leq(a, c),
    decreases a.len(),
{
    if a.len() == 0 {
    } else {
        assert(b.len() > 0);
        assert(c.len() > 0);
        if (a.first() as u32) == (b.first() as u32) && (b.first() as u32) == (c.first() as u32) {
            lemma_lex_trans(a.drop_first(), b.drop_first(), c.drop_first());
        } else {
            assert((a.first() as u32) <= (b.first() as u32));
            assert((b.first() as u32) <= (c.first() as u32));
            assert((a.first() as u32) < (c.first() as u32));
        }
    }
}

/// Prefixes that agree by code point do not affect the order of what
/// follows them.
proof fn lemma_lex_skip(a: Seq<char>, b: Seq<char>, i: int)
    requires
        0 <= i <= a.len(),
        0 <= i <= b.len(),
        forall|k: int| 0 <= k < i ==> (a[k] as u32) == (b[k] as u32),
    ensures
        lex_leq(a, b) == lex_leq(a.skip(i), b.skip(i)),
    decreases i,
{
    if i == 0 {
        assert(a.skip(0) =~= a);
        assert(b.skip(0) =~= b);
    } else {
        assert((a.first() as u32) == (b.first() as u32));
        assert(a.drop_first() =~= a.skip(1));
        assert(b.drop_first() =~= b.skip(1));
        lemma_lex_skip(a.skip(1), b.skip(1), i - 1);
        assert(a.skip(1).skip(i - 1) =~= a.skip(i));
        assert(b.skip(1).skip(i - 1) =~= b.skip(i));
    }
}

/// Compares two string slices lexicographically by code point.
pub fn str_leq(a: &str, b: &str) -> (r: bool)
    ensures
        r == lex_leq(a@, b@),
{
    let alen = a.unicode_len();
    let blen = b.unicode_len();
    let mut i: usize = 0;
    while i < alen && i < blen
        invariant
            0 <= i <= alen,
            0 <= i <= blen,
            alen == a@.len(),
            blen == b@.len(),
            forall|k: int| 0 <= k < i ==> (a@[k] as u32) == (b@[k] as u32),
        decreases alen - i,
    {
        let ca = a.get_char(i);
        let cb = b.get_char(i);
        if ca as u32 != cb as u32 {
            proof {
                lemma_lex_skip(a@, b@, i as int);
                assert(a@.skip(i as int).first() == a@[i as int]);
                assert(b@.skip(i as int).first() == b@[i as int]);
            }
            return (ca as u32) < (cb as u32);
        }
        i += 1;
    }
    proof {
        lemma_lex_skip(a@, b@, i as int);
    }
    if i >= alen {
        proof {
            assert(a@.skip(i as int).len() == 0);
        }
        true
    } else {
        proof {
            assert(a@.skip(i as int).len() > 0);
            assert(b@.skip(i as int).len() == 0);
        }
        false
    }
}

/// Every pair of entries stands in lexicographic order.
pub open spec fn lex_sorted(s: Seq<Seq<char>>) -> bool {
    forall|i: int, j: int| 0 <= i < j < s.len() ==> lex_leq(#[trigger] s[i], #[trigger] s[j])
}

/// Inserts `name` into the sorted vector `out`, keeping it sorted.
fn insert_sorted(out: &mut Vec<String>, name: String)
    requires
        lex_sorted(old(out).deep_view()),
    ensures
        lex_sorted(final (out).deep_view()),
        final (out).deep_view().to_multiset() == old(out).deep_view().to_multiset().insert(name@),
{
    let ghost dv = out.deep_view();
    let mut j: usize = out.len();
    loop
        invariant
            0 <= j <= out.len(),
            dv == out.deep_view(),
            dv.len() == out.len(),
            lex_sorted(dv),
            forall|k: int| j <= k < dv.len() ==> lex_leq(name@, #[trigger] dv[k]),
        ensures
            0 <= j <= dv.len(),
            j > 0 ==> lex_leq(dv[j - 1], name@),
            forall|k: int| j <= k < dv.len() ==> lex_leq(name@, #[trigger] dv[k]),
        decreases j,
    {
        if j == 0 {
            break ;
        }
        let le = str_leq(out[j - 1].as_str(), name.as_str());
        proof {
            assert(dv[j - 1] == out@[j - 1]@);
        }
        if le {
            break ;
        }
        proof {
            lemma_lex_total(dv[j - 1], name@);
        }
        j -= 1;
    }
    let ghost jj = j as int;
    out.insert(j, name);
    proof {
        let dv2 = out.deep_view();
        assert(dv2 =~= dv.insert(jj, name@)) by {
            assert(out@ == old(out)@.insert(jj, name));
            assert forall|k: int| 0 <= k < dv2.len() implies dv2[k] == dv.insert(jj, name@)[k] by {
                assert(dv2[k] == out@[k]@);
                if k < jj {
                    assert(out@[k] == old(out)@[k]);
                } else if k == jj {
                    assert(out@[k] == name);
                } else {
                    assert(out@[k] == old(out)@[k - 1]);
                }
            }
        }
        assert(lex_sorted(dv2)) by {
            assert forall|p: int, q: int| 0 <= p < q < dv2.len() implies lex_leq(
                #[trigger] dv2[p],
                #[trigger] dv2[q],
            ) by {
                if p < jj && q < jj {
                    assert(dv2[p] == dv[p] && dv2[q] == dv[q]);
                } else if p < jj && q == jj {
                    assert(dv2[p] == dv[p]);
                    assert(lex_leq(dv[jj - 1], name@));
                    if p < jj - 1 {
                        assert(lex_leq(dv[p], dv[jj - 1]));
                        lemma_lex_trans(dv[p], dv[jj - 1], name@);
                    }
                } else if p < jj && q > jj {
                    assert(dv2[p] == dv[p] && dv2[q] == dv[q - 1]);
                    if p == jj - 1 {
                        assert(lex_leq(dv[p], name@));
                        assert(lex_leq(name@, dv[q - 1]));
                        lemma_lex_trans(dv[p], name@, dv[q - 1]);
                    } else {
                        assert(lex_leq(dv[p], dv[q - 1]));
                    }
                } else if p == jj {
                    assert(dv2[p] == name@ && dv2[q] == dv[q - 1]);
                    assert(lex_leq(name@, dv[q - 1]));
                } else {
                    assert(dv2[p] == dv[p - 1] && dv2[q] == dv[q - 1]);
                }
            }
        }
        assert(dv2.to_multiset() =~= dv.to_multiset().insert(name@)) by {
            assert(dv2 =~= dv.take(jj) + seq![name@] + dv.skip(jj));
            lemma_multiset_commutative(dv.take(jj) + seq![name@], dv.skip(jj));
            lemma_multiset_commutative(dv.take(jj), seq![name@]);
            let e = Seq::<Seq<char>>::empty();
            e.to_multiset_ensures();
            assert(e.to_multiset() =~= Multiset::<Seq<char>>::empty()) by {
                assert forall|x: Seq<char>| e.to_multiset().count(x) == 0 by {
                    assert(!e.contains(x));
                }
            }
            assert(seq![name@] =~= e.push(name@));
            assert(seq![name@].to_multiset() =~= Multiset::<Seq<char>>::empty().insert(name@));
            lemma_multiset_commutative(dv.take(jj), dv.skip(jj));
            assert(dv.take(jj) + dv.skip(jj) =~= dv);
        }
    }
}

/// Shaped like a backup artifact name.
pub open spec fn backup_shaped_pred() -> spec_fn(Seq<char>) -> bool {
    |n: Seq<char>| is_backup_shaped(n)
}

/// Selects the backup artifacts among `names` and orders them
/// lexicographically, which for zero-padded numbers of equal width is
/// numeric order.
pub fn list_backups(names: &Vec<String>) -> (r: Vec<String>)
    ensures
        lex_sorted(r.deep_view()),
        r.deep_view().to_multiset() == names.deep_view().filter(
            backup_shaped_pred(),
        ).to_multiset(),
{
    let ghost dv = names.deep_view();
    let ghost pred = backup_shaped_pred();
    let mut out: Vec<String> = Vec::new();
    let mut i: usize = 0;
    proof {
        assert(dv.take(0) =~= Seq::<Seq<char>>::empty());
        reveal(Seq::filter);
        assert(out.deep_view() =~= Seq::<Seq<char>>::empty());
        out.deep_view().to_multiset_ensures();
        dv.take(0).filter(pred).to_multiset_ensures();
        assert(out.deep_view().to_multiset() =~= dv.take(0).filter(pred).to_multiset());
    }
    while i < names.len()
        invariant
            0 <= i <= names.len(),
            dv == names.deep_view(),
            dv.len() == names.len(),
            lex_sorted(out.deep_view()),
            out.deep_view().to_multiset() == dv.take(i as int).filter(
                backup_shaped_pred(),
            ).to_multiset(),
        decreases names.len() - i,
    {
        proof {
            assert(dv[i as int] == names@[i as int]@);
        }
        let keep = is_backup_name(names[i].as_str());
        proof {
            reveal(Seq::filter);
            assert(dv.take(i + 1).drop_last() =~= dv.take(i as int));
            assert(dv.take(i + 1).last() == dv[i as int]);
        }
        if keep {
            let name = names[i].clone();
            insert_sorted(&mut out, name);
            proof {
                let fs = dv.take(i as int).filter(backup_shaped_pred());
                fs.to_multiset_ensures();
                assert(dv.take(i + 1).filter(backup_shaped_pred()) == fs.push(dv[i as int]));
            }
        }
        i += 1;
    }
    proof {
        assert(dv.take(names.len() as int) =~= dv);
    }
    out
}

// ---------------------------------------------------------------------------
// Zero-padded numbering and lexicographic order
// ---------------------------------------------------------------------------

proof fn lemma_lex_refl(t: Seq<char>)
    ensures
        lex_leq(t, t),
    decreases t.len(),
{
    if t.len() > 0 {
        lemma_lex_refl(t.drop_first());
    }
}

/// The value of a digit string, split at its first digit.
proof fn lemma_digits_val_first(s: Seq<char>)
    requires
        s.len() > 0,
        all_digits(s),
    ensures
        digits_val(s) == digit_val(s.first()) * pow(10, (s.len() - 1) as nat) + digits_val(
            s.drop_first(),
        ),
    decreases s.len(),
{
    reveal(pow);
    if s.len() == 1 {
        assert(s.drop_last() =~= Seq::<char>::empty());
        assert(s.drop_first() =~= Seq::<char>::empty());
        assert(s.last() == s.first());
        assert(pow(10, 0) == 1);
    } else {
        let t = s.drop_last();
        assert(all_digits(t));
        lemma_digits_val_first(t);
        let f = digit_val(s.first());
        let rt = digits_val(t.drop_first());
        let p1 = pow(10, (t.len() - 1) as nat);
        assert(pow(10, (s.len() - 1) as nat) == 10 * p1);
        assert(t.first() == s.first());
        assert(s.drop_first().drop_last() =~= t.drop_first());
        assert(s.drop_first().last() == s.last());
        assert(digits_val(s.drop_first()) == rt * 10 + digit_val(s.last()));
        assert(digits_val(s) == (f * p1 + rt) * 10 + digit_val(s.last()));
        assert((f * p1 + rt) * 10 == f * (10 * p1) + rt * 10) by (nonlinear_arith);
    }
}

/// A digit string's value stays below ten to its length.
proof fn lemma_digits_val_bound(s: Seq<char>)
    requires
        all_digits(s),
    ensures
        digits_val(s) < pow(10, s.len() as nat),
    decreases s.len(),
{
    reveal(pow);
    if s.len() == 0 {
    } else {
        let t = s.drop_last();
        assert(all_digits(t));
        lemma_digits_val_bound(t);
        lemma_digits_val_nonneg(t);
        let p1 = pow(10, t.len() as nat);
        assert(pow(10, s.len() as nat) == 10 * p1);
        assert(digit_val(s.last()) <= 9);
        assert(digits_val(t) * 10 + 9 < 10 * p1) by (nonlinear_arith)
            requires
                digits_val(t) < p1,
        ;
    }
}

/// Digit strings of equal length, each followed by the same tail,
/// stand in lexicographic order exactly as their values do.
proof fn lemma_lex_digits(a: Seq<char>, b: Seq<char>, t: Seq<char>)
    requires
        all_digits(a),
        all_digits(b),
        a.len() == b.len(),
    ensures
        lex_leq(a + t, b + t) <==> digits_val(a) <= digits_val(b),
    decreases a.len(),
{
    if a.len() == 0 {
        assert(a + t =~= t);
        assert(b + t =~= t);
        lemma_lex_refl(t);
    } else {
        let at = a + t;
        let bt = b + t;
        assert(at.first() == a.first());
        assert(bt.first() == b.first());
        assert(at.len() > 0 && bt.len() > 0);
        lemma_digits_val_first(a);
        lemma_digits_val_first(b);
        lemma_digits_val_bound(a.drop_first());
        lemma_digits_val_bound(b.drop_first());
        lemma_digits_val_nonneg(a.drop_first());
        lemma_digits_val_nonneg(b.drop_first());
        let p = pow(10, (a.len() - 1) as nat);
        lemma_pow_positive(10, (a.len() - 1) as nat);
        let da = digit_val(a.first());
        let db = digit_val(b.first());
        assert(a.first() as int == a.first() as u32);
        assert(b.first() as int == b.first() as u32);
        if (a.first() as u32) == (b.first() as u32) {
            assert(da == db);
            assert(all_digits(a.drop_first()) && all_digits(b.drop_first()));
            lemma_lex_digits(a.drop_first(), b.drop_first(), t);
            assert(at.drop_first() =~= a.drop_first() + t);
            assert(bt.drop_first() =~= b.drop_first() + t);
        } else if (a.first() as u32) < (b.first() as u32) {
            assert(lex_leq(at, bt));
            assert(da < db);
            assert(da * p + digits_val(a.drop_first()) < db * p + digits_val(b.drop_first()))
                by (nonlinear_arith)
                requires
                    da < db,
                    p > 0,
                    digits_val(a.drop_first()) < p,
                    digits_val(b.drop_first()) >= 0,
            ;
        } else {
            assert(!lex_leq(at, bt));
            assert(db < da);
            assert(db * p + digits_val(b.drop_first()) < da * p + digits_val(a.drop_first()))
                by (nonlinear_arith)
                requires
                    db < da,
                    p > 0,
                    digits_val(b.drop_first()) < p,
                    digits_val(a.drop_first()) >= 0,
            ;
        }
    }
}

/// A number within the padding width fills exactly the padded width.
proof fn lemma_padded_len_3(n: nat)
    requires
        n <= 999,
    ensures
        padded_digits(n, 3).len() == 3,
{
    assert(n / 10 <= 99) by (nonlinear_arith)
        requires
            n <= 999,
    ;
    assert(n / 10 / 10 <= 9) by (nonlinear_arith)
        requires
            n / 10 <= 99,
    ;
    assert(n / 10 / 10 / 10 == 0) by (nonlinear_arith)
        requires
            n / 10 / 10 <= 9,
    ;
    assert(padded_digits(n / 10 / 10 / 10, 0) =~= Seq::<char>::empty());
    assert(padded_digits(n / 10 / 10, 1).len() == 1);
    assert(padded_digits(n / 10, 2).len() == 2);
    assert(padded_digits(n, 3).len() == 3);
}

/// While sequence numbers stay within the padding width, lexicographic
/// order of backup names equals numeric order of their numbers.
pub proof fn lemma_backup_name_order(m: nat, n: nat)
    requires
        m <= 999,
        n <= 999,
    ensures
        lex_leq(backup_name_spec(m), backup_name_spec(n)) <==> m <= n,
{
    lemma_padded_digits(m, 3);
    lemma_padded_digits(n, 3);
    lemma_padded_len_3(m);
    lemma_padded_len_3(n);
    let a = padded_digits(m, 3);
    let b = padded_digits(n, 3);
    let am = backup_name_spec(m);
    let bn = backup_name_spec(n);
    assert(am.len() == 14 && bn.len() == 14);
    assert forall|k: int| 0 <= k < 7 implies (am[k] as u32) == (bn[k] as u32) by {
        assert(am[k] == backup_prefix()[k]);
        assert(bn[k] == backup_prefix()[k]);
    }
    lemma_lex_skip(am, bn, 7);
    assert(am.skip(7) =~= a + backup_suffix());
    assert(bn.skip(7) =~= b + backup_suffix());
    lemma_lex_digits(a, b, backup_suffix());
}

} // verus!
