use vstd::prelude::*;
use vstd::string::*;
use crate::errors::PhraseError;
use crate::lines::{decode_lines, decode_phrase, encode_lines, encode_phrase, phrase_wf};
use crate::names::{
    active_name, active_name_str, backup_name, backup_name_spec,
    lemma_backup_name_not_active, lemma_backup_name_round_trip, parse_backup_spec, str_eq,
};
use crate::registry::{
    backup_shaped_pred, highest_number, lemma_highest_number, lex_sorted, list_backups,
    next_backup_number, number_or_zero,
};

verus! {

/// The directory's relevant slice as an association list of
/// artifact name and content.
spec fn assoc_map(s: Seq<(String, String)>) -> Map<Seq<char>, Seq<char>>
    decreases s.len(),
{
    if s.len() == 0 {
        Map::empty()
    } else {
        assoc_map(s.drop_last()).insert(s.last().0@, s.last().1@)
    }
}

/// No artifact name occurs twice.
spec fn unique_names(s: Seq<(String, String)>) -> bool {
    forall|i: int, j: int|
        0 <= i < j < s.len() ==> (#[trigger] s[i]).0@ != (#[trigger] s[j]).0@
}

proof fn lemma_assoc_contains(s: Seq<(String, String)>, k: Seq<char>)
    ensures
        assoc_map(s).contains_key(k) <==> exists|i: int|
            0 <= i < s.len() && (#[trigger] s[i]).0@ == k,
    decreases s.len(),
{
    if s.len() > 0 {
        lemma_assoc_contains(s.drop_last(), k);
        if s.last().0@ == k {
            assert((s[s.len() - 1]).0@ == k);
        } else {
            if assoc_map(s).contains_key(k) {
                let i = choose|i: int| 0 <= i < s.drop_last().len() && (#[trigger] s.drop_last()[i]).0@
                    == k;
                assert((s[i]).0@ == k);
            }
            if exists|i: int| 0 <= i < s.len() && (#[trigger] s[i]).0@ == k {
                let i = choose|i: int| 0 <= i < s.len() && (#[trigger] s[i]).0@ == k;
                assert(i < s.len() - 1);
                assert((s.drop_last()[i]).0@ == k);
            }
        }
    }
}

proof fn lemma_assoc_at(s: Seq<(String, String)>, i: int)
    requires
        unique_names(s),
        0 <= i < s.len(),
    ensures
        assoc_map(s).contains_key(s[i].0@),
        assoc_map(s)[s[i].0@] == s[i].1@,
    decreases s.len(),
{
    if i == s.len() - 1 {
    } else {
        assert(unique_names(s.drop_last()));
        assert(s.drop_last()[i] == s[i]);
        lemma_assoc_at(s.drop_last(), i);
        assert(s.last().0@ != s[i].0@);
    }
}

proof fn lemma_assoc_remove(s: Seq<(String, String)>, i: int)
    requires
        unique_names(s),
        0 <= i < s.len(),
    ensures
        unique_names(s.remove(i)),
        assoc_map(s.remove(i)) == assoc_map(s).remove(s[i].0@),
    decreases s.len(),
{
    assert(unique_names(s.remove(i))) by {
        assert forall|p: int, q: int|
            0 <= p < q < s.remove(i).len() implies (#[trigger] s.remove(i)[p]).0@ != (
        #[trigger] s.remove(i)[q]).0@ by {
            let p2: int = if p < i { p } else { p + 1 };
            let q2: int = if q < i { q } else { q + 1 };
            assert(s.remove(i)[p] == s[p2]);
            assert(s.remove(i)[q] == s[q2]);
        }
    }
    if i == s.len() - 1 {
        assert(s.remove(i) =~= s.drop_last());
        lemma_assoc_contains(s.drop_last(), s[i].0@);
        assert(!assoc_map(s.drop_last()).contains_key(s[i].0@)) by {
            if exists|j: int| 0 <= j < s.drop_last().len() && (#[trigger] s.drop_last()[j]).0@ == s[i].0@ {
                let j = choose|j: int|
                    0 <= j < s.drop_last().len() && (#[trigger] s.drop_last()[j]).0@ == s[i].0@;
                assert((s[j]).0@ == s[i].0@);
            }
        }
        assert(assoc_map(s.drop_last()) =~= assoc_map(s).remove(s[i].0@));
    } else {
        assert(unique_names(s.drop_last()));
        lemma_assoc_remove(s.drop_last(), i);
        assert(s.remove(i).drop_last() =~= s.drop_last().remove(i));
        assert(s.remove(i).last() == s.last());
        assert(s.last().0@ != s[i].0@);
        assert(assoc_map(s.remove(i)) == assoc_map(s.drop_last().remove(i)).insert(
            s.last().0@,
            s.last().1@,
        ));
        assert(assoc_map(s.drop_last()).remove(s[i].0@).insert(s.last().0@, s.last().1@)
            =~= assoc_map(s.drop_last()).insert(s.last().0@, s.last().1@).remove(s[i].0@));
    }
}

/// An in-memory model of the artifact directory: the files relevant to
/// the tool, each an artifact name with its text content. The phrase
/// store and the backup registry operate on this model; callers mirror
/// its transitions onto the real directory.
pub struct Directory {
    files: Vec<(String, String)>,
}

impl Directory {
    /// The directory as a map from artifact name to artifact content.
    pub closed spec fn map_view(self) -> Map<Seq<char>, Seq<char>> {
        assoc_map(self.files@)
    }

    /// The artifact names, in directory order.
    pub closed spec fn names_view(self) -> Seq<Seq<char>> {
        self.files@.map_values(|p: (String, String)| p.0@)
    }

    /// Each artifact name occurs once.
    pub closed spec fn wf(self) -> bool {
        unique_names(self.files@)
    }

    /// A name is in the map exactly when it is among the names.
    pub proof fn lemma_names_map(self)
        ensures
            forall|k: Seq<char>|
                self.map_view().contains_key(k) <==> self.names_view().contains(k),
    {
        assert forall|k: Seq<char>|
            self.map_view().contains_key(k) <==> self.names_view().contains(k) by {
            lemma_assoc_contains(self.files@, k);
            if self.map_view().contains_key(k) {
                let i = choose|i: int| 0 <= i < self.files@.len() && (#[trigger] self.files@[i]).0@
                    == k;
                assert(self.names_view()[i] == k);
            }
            if self.names_view().contains(k) {
                let i = choose|i: int|
                    0 <= i < self.names_view().len() && self.names_view()[i] == k;
                assert((self.files@[i]).0@ == k);
            }
        }
    }

    /// An empty directory.
    pub fn new() -> (d: Directory)
        ensures
            d.wf(),
            d.map_view() == Map::<Seq<char>, Seq<char>>::empty(),
            d.names_view() == Seq::<Seq<char>>::empty(),
    {
        let d = Directory { files: Vec::new() };
        proof {
            assert(d.names_view() =~= Seq::<Seq<char>>::empty());
        }
        d
    }

    /// Index of the artifact with the given name, if present.
    fn find(&self, name: &str) -> (r: Option<usize>)
        ensures
            match r {
                Some(i) => i < self.files@.len() && self.files@[i as int].0@ == name@,
                None => !self.map_view().contains_key(name@),
            },
    {
        let mut i: usize = 0;
        while i < self.files.len()
            invariant
                0 <= i <= self.files@.len(),
                forall|k: int| 0 <= k < i ==> (#[trigger] self.files@[k]).0@ != name@,
            decreases self.files@.len() - i,
        {
            if str_eq(self.files[i].0.as_str(), name) {
                return Some(i);
            }
            i += 1;
        }
        proof {
            lemma_assoc_contains(self.files@, name@);
        }
        None
    }

    /// Whether an artifact with the given name exists.
    pub fn contains(&self, name: &str) -> (r: bool)
        ensures
            r == self.map_view().contains_key(name@),
    {
        match self.find(name) {
            Some(i) => {
                proof {
                    lemma_assoc_contains(self.files@, name@);
                }
                true
            },
            None => false,
        }
    }

    /// The content of the named artifact, if present.
    pub fn read(&self, name: &str) -> (r: Option<String>)
        requires
            self.wf(),
        ensures
            match r {
                Some(c) => self.map_view().contains_key(name@) && c@ == self.map_view()[name@],
                None => !self.map_view().contains_key(name@),
            },
    {
        match self.find(name) {
            Some(i) => {
                proof {
                    lemma_assoc_at(self.files@, i as int);
                }
                Some(self.files[i].1.clone())
            },
            None => None,
        }
    }

    /// Creates or overwrites the named artifact with the given content.
    pub fn write(&mut self, name: &str, content: String)
        requires
            old(self).wf(),
        ensures
            final (self).wf(),
            final (self).map_view() == old(self).map_view().insert(name@, content@),
    {
        let ghost s0 = self.files@;
        match self.find(name) {
            Some(i) => {
                proof {
                    lemma_assoc_remove(s0, i as int);
                }
                let _ = self.files.remove(i);
                let ghost s1 = self.files@;
                self.files.push((name.to_owned(), content));
                proof {
                    assert(unique_names(self.files@)) by {
                        lemma_assoc_contains(s1, name@);
                        assert forall|p: int, q: int|
                            0 <= p < q < self.files@.len() implies (#[trigger] self.files@[p]).0@
                            != (#[trigger] self.files@[q]).0@ by {
                            if q == self.files@.len() - 1 {
                                assert(self.files@[p] == s1[p]);
                                if (self.files@[p]).0@ == name@ {
                                    assert((s1[p]).0@ == name@);
                                }
                            } else {
                                assert(self.files@[p] == s1[p] && self.files@[q] == s1[q]);
                            }
                        }
                    }
                    assert(self.files@.drop_last() =~= s1);
                    assert(assoc_map(self.files@) =~= assoc_map(s0).insert(name@, content@));
                }
            },
            None => {
                let ghost s1 = self.files@;
                self.files.push((name.to_owned(), content));
                proof {
                    assert(unique_names(self.files@)) by {
                        lemma_assoc_contains(s1, name@);
                        assert forall|p: int, q: int|
                            0 <= p < q < self.files@.len() implies (#[trigger] self.files@[p]).0@
                            != (#[trigger] self.files@[q]).0@ by {
                            if q == self.files@.len() - 1 {
                                assert(self.files@[p] == s1[p]);
                                if (self.files@[p]).0@ == name@ {
                                    assert((s1[p]).0@ == name@);
                                }
                            } else {
                                assert(self.files@[p] == s1[p] && self.files@[q] == s1[q]);
                            }
                        }
                    }
                    assert(self.files@.drop_last() =~= s1);
                }
            },
        }
    }

    /// The artifact names as strings.
    pub fn names(&self) -> (r: Vec<String>)
        ensures
            r.deep_view() == self.names_view(),
    {
        let mut out: Vec<String> = Vec::new();
        let mut i: usize = 0;
        while i < self.files.len()
            invariant
                0 <= i <= self.files@.len(),
                out.deep_view() =~= self.names_view().take(i as int),
            decreases self.files@.len() - i,
        {
            let ghost prev = out.deep_view();
            out.push(self.files[i].0.clone());
            proof {
                assert(out.deep_view() =~= prev.push(self.files@[i as int].0@));
                assert(self.names_view()[i as int] == self.files@[i as int].0@);
                assert(out.deep_view() =~= self.names_view().take(i + 1));
            }
            i += 1;
        }
        proof {
            assert(self.names_view().take(self.files@.len() as int) =~= self.names_view());
        }
        out
    }

    /// The backup artifacts present, in lexicographic order.
    pub fn list(&self) -> (r: Vec<String>)
        ensures
            lex_sorted(r.deep_view()),
            r.deep_view().to_multiset() == self.names_view().filter(
                backup_shaped_pred(),
            ).to_multiset(),
    {
        let names = self.names();
        list_backups(&names)
    }

    /// Renames the active artifact, when one exists, into the next free
    /// backup slot: one past the highest sequence number in use. Fails,
    /// changing nothing, only when that number would not fit.
    pub fn rotate(&mut self) -> (r: Result<Option<String>, PhraseError>)
        requires
            old(self).wf(),
        ensures
            final (self).wf(),
            match r {
                Ok(opt) => match opt {
                    None => !old(self).map_view().contains_key(active_name()) && *final (self)
                        == *old(self),
                    Some(bname) => {
                        let m = old(self).map_view();
                        &&& m.contains_key(active_name())
                        &&& bname@ == backup_name_spec(
                            (highest_number(old(self).names_view()) + 1) as nat,
                        )
                        &&& !m.contains_key(bname@)
                        &&& final (self).map_view() == m.remove(active_name()).insert(
                            bname@,
                            m[active_name()],
                        )
                    },
                },
                Err(e) => {
                    &&& e == PhraseError::BackupRotationFailure
                    &&& *final (self) == *old(self)
                    &&& old(self).map_view().contains_key(active_name())
                    &&& highest_number(old(self).names_view()) == u32::MAX
                },
            },
    {
        let aname = active_name_str();
        match self.find(aname) {
            None => Ok(None),
            Some(i) => {
                proof {
                    lemma_assoc_at(self.files@, i as int);
                }
                let names = self.names();
                let next = match next_backup_number(&names) {
                    None => {
                        return Err(PhraseError::BackupRotationFailure);
                    },
                    Some(n) => n,
                };
                let bname = backup_name(next);
                let ghost s0 = self.files@;
                let ghost nv = old(self).names_view();
                proof {
                    lemma_highest_number(nv);
                    lemma_backup_name_round_trip(next as nat);
                    assert(!old(self).map_view().contains_key(bname@)) by {
                        lemma_assoc_contains(s0, bname@);
                        if exists|j: int| 0 <= j < s0.len() && (#[trigger] s0[j]).0@ == bname@ {
                            let j = choose|j: int|
                                0 <= j < s0.len() && (#[trigger] s0[j]).0@ == bname@;
                            assert(nv[j] == bname@);
                            assert(number_or_zero(nv[j]) <= highest_number(nv));
                            assert(parse_backup_spec(bname@) == Some(next as int));
                        }
                    }
                    lemma_assoc_remove(s0, i as int);
                }
                let entry = self.files.remove(i);
                let ghost s1 = self.files@;
                let content = entry.1;
                self.files.push((bname.clone(), content));
                proof {
                    assert(unique_names(self.files@)) by {
                        lemma_assoc_contains(s1, bname@);
                        assert(!assoc_map(s1).contains_key(bname@));
                        assert forall|p: int, q: int|
                            0 <= p < q < self.files@.len() implies (#[trigger] self.files@[p]).0@
                            != (#[trigger] self.files@[q]).0@ by {
                            if q == self.files@.len() - 1 {
                                assert(self.files@[p] == s1[p]);
                                if (self.files@[p]).0@ == bname@ {
                                    assert((s1[p]).0@ == bname@);
                                }
                            } else {
                                assert(self.files@[p] == s1[p] && self.files@[q] == s1[q]);
                            }
                        }
                    }
                    assert(self.files@.drop_last() =~= s1);
                    assert(assoc_map(self.files@) =~= old(self).map_view().remove(
                        active_name(),
                    ).insert(bname@, old(self).map_view()[active_name()]));
                }
                Ok(Some(bname))
            },
        }
    }

    /// Persists a phrase as the active artifact, first rotating any
    /// existing active artifact into a fresh backup slot; on rotation
    /// failure nothing changes and the previous phrase is preserved.
    /// Returns the name of the backup slot created, if any.
    pub fn save(&mut self, phrase: &Vec<String>) -> (r: Result<Option<String>, PhraseError>)
        requires
            old(self).wf(),
            phrase_wf(phrase.deep_view()),
        ensures
            final (self).wf(),
            match r {
                Ok(opt) => {
                    let m = old(self).map_view();
                    let enc = encode_lines(phrase.deep_view());
                    &&& final (self).map_view().contains_key(active_name())
                    &&& final (self).map_view()[active_name()] == enc
                    &&& match opt {
                        None => !m.contains_key(active_name()) && final (self).map_view()
                            == m.insert(active_name(), enc),
                        Some(bname) => {
                            &&& m.contains_key(active_name())
                            &&& bname@ == backup_name_spec(
                                (highest_number(old(self).names_view()) + 1) as nat,
                            )
                            &&& !m.contains_key(bname@)
                            &&& final (self).map_view() == m.remove(active_name()).insert(
                                bname@,
                                m[active_name()],
                            ).insert(active_name(), enc)
                        },
                    }
                },
                Err(e) => {
                    &&& e == PhraseError::BackupRotationFailure
                    &&& *final (self) == *old(self)
                    &&& old(self).map_view().contains_key(active_name())
                    &&& highest_number(old(self).names_view()) == u32::MAX
                },
            },
    {
        let rotated = self.rotate();
        match rotated {
            Err(e) => Err(e),
            Ok(opt) => {
                proof {
                    if opt is Some {
                        lemma_backup_name_not_active(
                            (highest_number(old(self).names_view()) + 1) as nat,
                        );
                    }
                }
                let content = encode_phrase(phrase);
                let aname = active_name_str();
                self.write(aname, content);
                Ok(opt)
            },
        }
    }

    /// Reads the active phrase back from the active artifact.
    pub fn load(&self) -> (r: Result<Vec<String>, PhraseError>)
        requires
            self.wf(),
        ensures
            match r {
                Ok(ws) => self.map_view().contains_key(active_name()) && ws.deep_view()
                    == decode_lines(self.map_view()[active_name()]),
                Err(e) => e == PhraseError::NoActivePhrase && !self.map_view().contains_key(
                    active_name(),
                ),
            },
    {
        let aname = active_name_str();
        match self.read(aname) {
            Some(content) => Ok(decode_phrase(content.as_str())),
            None => Err(PhraseError::NoActivePhrase),
        }
    }

    /// Exchanges the active artifact's content with the chosen backup.
    /// With a non-empty active artifact the two contents are swapped in
    /// place; with a missing or empty active artifact the backup's
    /// content becomes the active content and the backup slot is
    /// removed.
    pub fn swap(&mut self, backup: &str) -> (r: Result<(), PhraseError>)
        requires
            old(self).wf(),
            backup@ != active_name(),
        ensures
            final (self).wf(),
            match r {
                Ok(()) => {
                    let m = old(self).map_view();
                    &&& m.contains_key(backup@)
                    &&& if m.contains_key(active_name()) && m[active_name()].len() > 0 {
                        final (self).map_view() == m.insert(backup@, m[active_name()]).insert(
                            active_name(),
                            m[backup@],
                        )
                    } else {
                        final (self).map_view() == m.remove(backup@).insert(
                            active_name(),
                            m[backup@],
                        )
                    }
                },
                Err(e) => {
                    &&& e == PhraseError::BackupNotFound
                    &&& !old(self).map_view().contains_key(backup@)
                    &&& *final (self) == *old(self)
                },
            },
    {
        let ghost m = old(self).map_view();
        let bi = match self.find(backup) {
            None => {
                return Err(PhraseError::BackupNotFound);
            },
            Some(bi) => bi,
        };
        proof {
            lemma_assoc_at(self.files@, bi as int);
            lemma_assoc_remove(self.files@, bi as int);
        }
        let bentry = self.files.remove(bi);
        let bcontent = bentry.1;
        // the directory now maps everything but the backup slot
        let aname = active_name_str();
        match self.find(aname) {
            Some(ai) => {
                proof {
                    lemma_assoc_at(self.files@, ai as int);
                    lemma_assoc_remove(self.files@, ai as int);
                }
                let aentry = self.files.remove(ai);
                let acontent = aentry.1;
                if !acontent.as_str().is_empty() {
                    // non-empty active content: exchange the two contents
                    let ghost s1 = self.files@;
                    self.files.push((bentry.0, acontent));
                    let ghost s2 = self.files@;
                    self.files.push((aentry.0, bcontent));
                    proof {
                        assert(m.contains_key(active_name()) && m[active_name()].len() > 0);
                        let m2 = m.remove(backup@).remove(active_name());
                        assert(!m2.contains_key(backup@) && !m2.contains_key(active_name()));
                        assert(unique_names(s2)) by {
                            lemma_assoc_contains(s1, backup@);
                            assert forall|p: int, q: int|
                                0 <= p < q < s2.len() implies (#[trigger] s2[p]).0@ != (
                            #[trigger] s2[q]).0@ by {
                                if q == s2.len() - 1 {
                                    assert(s2[p] == s1[p]);
                                    if (s2[p]).0@ == backup@ {
                                        assert((s1[p]).0@ == backup@);
                                    }
                                } else {
                                    assert(s2[p] == s1[p] && s2[q] == s1[q]);
                                }
                            }
                        }
                        assert(s2.drop_last() =~= s1);
                        assert(assoc_map(s2) == m2.insert(backup@, m[active_name()]));
                        assert(unique_names(self.files@)) by {
                            lemma_assoc_contains(s2, active_name());
                            assert(!assoc_map(s2).contains_key(active_name()));
                            assert forall|p: int, q: int|
                                0 <= p < q < self.files@.len() implies (
                            #[trigger] self.files@[p]).0@ != (#[trigger] self.files@[q]).0@ by {
                                if q == self.files@.len() - 1 {
                                    assert(self.files@[p] == s2[p]);
                                    if (self.files@[p]).0@ == active_name() {
                                        assert((s2[p]).0@ == active_name());
                                    }
                                } else {
                                    assert(self.files@[p] == s2[p] && self.files@[q] == s2[q]);
                                }
                            }
                        }
                        assert(self.files@.drop_last() =~= s2);
                        assert(assoc_map(self.files@) =~= m.insert(backup@, m[active_name()]).insert(
                            active_name(),
                            m[backup@],
                        ));
                    }
                    Ok(())
                } else {
                    // empty active content: the backup becomes active, its slot goes away
                    let ghost s1 = self.files@;
                    self.files.push((aentry.0, bcontent));
                    proof {
                        assert(m.contains_key(active_name()) && m[active_name()].len() == 0);
                        assert(unique_names(self.files@)) by {
                            lemma_assoc_contains(s1, active_name());
                            assert forall|p: int, q: int|
                                0 <= p < q < self.files@.len() implies (
                            #[trigger] self.files@[p]).0@ != (#[trigger] self.files@[q]).0@ by {
                                if q == self.files@.len() - 1 {
                                    assert(self.files@[p] == s1[p]);
                                    if (self.files@[p]).0@ == active_name() {
                                        assert((s1[p]).0@ == active_name());
                                    }
                                } else {
                                    assert(self.files@[p] == s1[p] && self.files@[q] == s1[q]);
                                }
                            }
                        }
                        assert(self.files@.drop_last() =~= s1);
                        assert(assoc_map(self.files@) =~= m.remove(backup@).insert(
                            active_name(),
                            m[backup@],
                        ));
                    }
                    Ok(())
                }
            },
            None => {
                let ghost s1 = self.files@;
                self.files.push((aname.to_owned(), bcontent));
                proof {
                    assert(!m.contains_key(active_name())) by {
                        lemma_assoc_contains(old(self).files@, active_name());
                        lemma_assoc_contains(s1, active_name());
                        if exists|j: int|
                            0 <= j < old(self).files@.len() && (#[trigger] old(self).files@[j]).0@
                                == active_name() {
                            let j = choose|j: int|
                                0 <= j < old(self).files@.len() && (
                                #[trigger] old(self).files@[j]).0@ == active_name();
                            let j2: int = if j < bi as int { j } else { j - 1 };
                            assert(j != bi as int);
                            assert(s1[j2] == old(self).files@[j]);
                        }
                    }
                    assert(unique_names(self.files@)) by {
                        lemma_assoc_contains(s1, active_name());
                        assert forall|p: int, q: int|
                            0 <= p < q < self.files@.len() implies (#[trigger] self.files@[p]).0@
                            != (#[trigger] self.files@[q]).0@ by {
                            if q == self.files@.len() - 1 {
                                assert(self.files@[p] == s1[p]);
                                if (self.files@[p]).0@ == active_name() {
                                    assert((s1[p]).0@ == active_name());
                                }
                            } else {
                                assert(self.files@[p] == s1[p] && self.files@[q] == s1[q]);
                            }
                        }
                    }
                    assert(self.files@.drop_last() =~= s1);
                    assert(assoc_map(self.files@) =~= m.remove(backup@).insert(
                        active_name(),
                        m[backup@],
                    ));
                }
                Ok(())
            },
        }
    }
}

} // verus!
