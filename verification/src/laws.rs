use vstd::prelude::*;
use crate::lines::{decode_lines, encode_lines, lemma_encode_decode, phrase_wf};
use crate::names::active_name;

verus! {

/// After saving a phrase when no active artifact existed, the active
/// artifact exists and reads back as exactly that phrase.
pub proof fn lemma_save_fresh_round_trip(
    m1: Map<Seq<char>, Seq<char>>,
    m2: Map<Seq<char>, Seq<char>>,
    p: Seq<Seq<char>>,
)
    requires
        phrase_wf(p),
        !m1.contains_key(active_name()),
        m2 == m1.insert(active_name(), encode_lines(p)),
    ensures
        m2.contains_key(active_name()),
        decode_lines(m2[active_name()]) == p,
{
    lemma_encode_decode(p);
}

/// After saving a new phrase over an active artifact holding an older
/// one, the backup slot created holds the older phrase and the active
/// artifact holds the new one.
pub proof fn lemma_save_preserves_old(
    m1: Map<Seq<char>, Seq<char>>,
    m2: Map<Seq<char>, Seq<char>>,
    p_old: Seq<Seq<char>>,
    p_new: Seq<Seq<char>>,
    bname: Seq<char>,
)
    requires
        phrase_wf(p_old),
        phrase_wf(p_new),
        bname != active_name(),
        m1.contains_key(active_name()),
        m1[active_name()] == encode_lines(p_old),
        m2 == m1.remove(active_name()).insert(bname, m1[active_name()]).insert(
            active_name(),
            encode_lines(p_new),
        ),
    ensures
        m2.contains_key(bname),
        decode_lines(m2[bname]) == p_old,
        m2.contains_key(active_name()),
        decode_lines(m2[active_name()]) == p_new,
{
    lemma_encode_decode(p_old);
    lemma_encode_decode(p_new);
}

/// Swapping with an empty or missing active artifact: the backup's
/// phrase becomes the active phrase and the backup slot is gone.
pub proof fn lemma_swap_into_empty(
    m1: Map<Seq<char>, Seq<char>>,
    m2: Map<Seq<char>, Seq<char>>,
    b: Seq<char>,
    p: Seq<Seq<char>>,
)
    requires
        phrase_wf(p),
        b != active_name(),
        m1.contains_key(b),
        m1[b] == encode_lines(p),
        !(m1.contains_key(active_name()) && m1[active_name()].len() > 0),
        m2 == m1.remove(b).insert(active_name(), m1[b]),
    ensures
        m2.contains_key(active_name()),
        decode_lines(m2[active_name()]) == p,
        !m2.contains_key(b),
{
    lemma_encode_decode(p);
}

/// Swapping with a non-empty active artifact exchanges the two
/// contents: afterwards the active artifact reads back as the former
/// backup phrase, and the backup slot as the former active phrase.
pub proof fn lemma_swap_exchanges(
    m1: Map<Seq<char>, Seq<char>>,
    m2: Map<Seq<char>, Seq<char>>,
    b: Seq<char>,
    p_active: Seq<Seq<char>>,
    p_backup: Seq<Seq<char>>,
)
    requires
        phrase_wf(p_active),
        phrase_wf(p_backup),
        b != active_name(),
        m1.contains_key(b),
        m1[b] == encode_lines(p_backup),
        m1.contains_key(active_name()),
        m1[active_name()] == encode_lines(p_active),
        m1[active_name()].len() > 0,
        m2 == m1.insert(b, m1[active_name()]).insert(active_name(), m1[b]),
    ensures
        m2.contains_key(active_name()),
        decode_lines(m2[active_name()]) == p_backup,
        m2.contains_key(b),
        decode_lines(m2[b]) == p_active,
{
    lemma_encode_decode(p_active);
    lemma_encode_decode(p_backup);
}

} // verus!
