use vstd::prelude::*;
use vstd::string::*;

verus! {

/// A word may stand on a line of its own only if it holds no newline.
pub open spec fn word_wf(w: Seq<char>) -> bool {
    !w.contains('\n')
}

/// Every word of the phrase can stand on a line of its own.
pub open spec fn phrase_wf(ws: Seq<Seq<char>>) -> bool {
    forall|i: int| 0 <= i < ws.len() ==> word_wf(#[trigger] ws[i])
}

/// The persisted form of a phrase: each word followed by a newline.
pub open spec fn encode_lines(ws: Seq<Seq<char>>) -> Seq<char>
    decreases ws.len(),
{
    if ws.len() == 0 {
        Seq::empty()
    } else {
        ws.first().push('\n') + encode_lines(ws.drop_first())
    }
}

/// Position of the first newline in `s`, or `s.len()` if there is none.
pub open spec fn first_newline(s: Seq<char>) -> int
    decreases s.len(),
{
    if s.len() == 0 {
        0
    } else if s.first() == '\n' {
        0
    } else {
        1 + first_newline(s.drop_first())
    }
}

/// Splits `s` at every newline; the separators are consumed.
pub open spec fn split_newlines(s: Seq<char>) -> Seq<Seq<char>>
    decreases s.len(),
{
    let k = first_newline(s);
    if 0 <= k && k < s.len() {
        seq![s.take(k)] + split_newlines(s.skip(k + 1))
    } else {
        seq![s]
    }
}

/// The words read back from persisted artifact content: its lines,
/// a final line ending being optional.
pub open spec fn decode_lines(s: Seq<char>) -> Seq<Seq<char>> {
    if s.len() == 0 {
        Seq::empty()
    } else if s.last() == '\n' {
        split_newlines(s.drop_last())
    } else {
        split_newlines(s)
    }
}

proof fn lemma_first_newline_bounds(s: Seq<char>)
    ensures
        0 <= first_newline(s) <= s.len(),
        forall|i: int| 0 <= i < first_newline(s) ==> s[i] != '\n',
        first_newline(s) < s.len() ==> s[first_newline(s)] == '\n',
    decreases s.len(),
{
    if s.len() > 0 && s.first() != '\n' {
        lemma_first_newline_bounds(s.drop_first());
        let k = first_newline(s);
        assert forall|i: int| 0 <= i < k implies s[i] != '\n' by {
            if i > 0 {
                assert(s.drop_first()[i - 1] != '\n');
            }
        }
        if k < s.len() {
            assert(s[k] == s.drop_first()[k - 1]);
        }
    }
}

/// In a string that opens with a newline-free word followed by a
/// newline, the first newline stands right after the word.
proof fn lemma_first_newline_of_word(w: Seq<char>, rest: Seq<char>)
    requires
        word_wf(w),
    ensures
        first_newline(w.push('\n') + rest) == w.len(),
    decreases w.len(),
{
    let s = w.push('\n') + rest;
    if w.len() == 0 {
        assert(s.first() == '\n');
    } else {
        assert(s.first() == w[0]);
        assert(w.contains(w[0]) == true);
        assert(s.first() != '\n');
        let w2 = w.drop_first();
        assert(word_wf(w2)) by {
            assert forall|i: int| 0 <= i < w2.len() implies w2[i] != '\n' by {
                assert(w2[i] == w[i + 1]);
                assert(!w.contains('\n'));
            }
            if w2.contains('\n') {
                let j = choose|j: int| 0 <= j < w2.len() && w2[j] == '\n';
                assert(w2[j] != '\n');
            }
        }
        lemma_first_newline_of_word(w2, rest);
        assert(s.drop_first() =~= w2.push('\n') + rest);
    }
}

/// Splitting takes off the leading line: a newline-free word followed
/// by a newline and any remainder decodes to that word, then the rest.
pub proof fn lemma_decode_cons(w: Seq<char>, rest: Seq<char>)
    requires
        word_wf(w),
    ensures
        decode_lines(w.push('\n') + rest) == seq![w] + decode_lines(rest),
    decreases rest.len(),
{
    let s = w.push('\n') + rest;
    assert(s.len() == w.len() + 1 + rest.len());
    if rest.len() == 0 {
        assert(s =~= w.push('\n'));
        assert(s.last() == '\n');
        let t = s.drop_last();
        assert(t =~= w);
        lemma_first_newline_bounds(t);
        assert(first_newline(t) == t.len()) by {
            if first_newline(t) < t.len() {
                assert(t[first_newline(t)] == '\n');
                assert(w.contains('\n'));
            }
        }
        assert(split_newlines(t) =~= seq![w]);
        assert(decode_lines(s) =~= seq![w] + decode_lines(rest));
    } else {
        assert(s.last() == rest.last());
        if rest.last() == '\n' {
            let t = s.drop_last();
            assert(t =~= w.push('\n') + rest.drop_last());
            lemma_first_newline_of_word(w, rest.drop_last());
            assert(t.take(w.len() as int) =~= w);
            assert(t.skip(w.len() as int + 1) =~= rest.drop_last());
            assert(decode_lines(s) == split_newlines(t));
            assert(split_newlines(t) == seq![w] + split_newlines(rest.drop_last()));
            assert(decode_lines(rest) == split_newlines(rest.drop_last()));
        } else {
            lemma_first_newline_of_word(w, rest);
            assert(s.take(w.len() as int) =~= w);
            assert(s.skip(w.len() as int + 1) =~= rest);
            assert(decode_lines(s) == split_newlines(s));
            assert(split_newlines(s) == seq![w] + split_newlines(rest));
            assert(decode_lines(rest) == split_newlines(rest));
        }
    }
}

/// A lone newline-free word, not followed by a newline, decodes to itself.
pub proof fn lemma_decode_single(w: Seq<char>)
    requires
        word_wf(w),
        w.len() > 0,
    ensures
        decode_lines(w) == seq![w],
{
    lemma_first_newline_bounds(w);
    if first_newline(w) < w.len() {
        assert(w[first_newline(w)] == '\n');
        assert(w.contains('\n'));
    }
    assert(w.last() != '\n') by {
        if w.last() == '\n' {
            assert(w.contains('\n'));
        }
    }
    assert(decode_lines(w) == split_newlines(w));
    assert(split_newlines(w) == seq![w]);
}

/// Appending to the encoding encodes the concatenation.
pub proof fn lemma_encode_append(ws: Seq<Seq<char>>, w: Seq<char>)
    ensures
        encode_lines(ws.push(w)) == encode_lines(ws) + w.push('\n'),
    decreases ws.len(),
{
    if ws.len() == 0 {
        assert(ws.push(w).first() == w);
        assert(ws.push(w).drop_first() =~= Seq::<Seq<char>>::empty());
        assert(encode_lines(ws.push(w).drop_first()) == Seq::<char>::empty());
        assert(encode_lines(ws.push(w)) == w.push('\n') + Seq::<char>::empty());
        assert(w.push('\n') + Seq::<char>::empty() =~= w.push('\n'));
        assert(encode_lines(ws) + w.push('\n') =~= w.push('\n'));
    } else {
        assert(ws.push(w).first() == ws.first());
        assert(ws.push(w).drop_first() =~= ws.drop_first().push(w));
        lemma_encode_append(ws.drop_first(), w);
        assert(encode_lines(ws.push(w)) == ws.first().push('\n') + (encode_lines(ws.drop_first())
            + w.push('\n')));
        assert(ws.first().push('\n') + (encode_lines(ws.drop_first()) + w.push('\n')) =~= (
        ws.first().push('\n') + encode_lines(ws.drop_first())) + w.push('\n'));
    }
}

/// Round trip: the persisted form of a well-formed phrase reads back
/// as exactly that phrase.
pub proof fn lemma_encode_decode(ws: Seq<Seq<char>>)
    requires
        phrase_wf(ws),
    ensures
        decode_lines(encode_lines(ws)) == ws,
    decreases ws.len(),
{
    if ws.len() == 0 {
    } else {
        let w = ws.first();
        let rest = ws.drop_first();
        assert(word_wf(w));
        assert(phrase_wf(rest)) by {
            assert forall|i: int| 0 <= i < rest.len() implies word_wf(#[trigger] rest[i]) by {
                assert(rest[i] == ws[i + 1]);
            }
        }
        lemma_encode_decode(rest);
        lemma_decode_cons(w, encode_lines(rest));
        assert(seq![w] + rest =~= ws);
    }
}

/// Writes a phrase as newline-separated text, one word per line.
pub fn encode_phrase(words: &Vec<String>) -> (r: String)
    ensures
        r@ == encode_lines(words.deep_view()),
{
    proof {
        reveal_strlit("\n");
    }
    let mut out = String::new();
    let mut i: usize = 0;
    while i < words.len()
        invariant
            0 <= i <= words.len(),
            out@ == encode_lines(words.deep_view().take(i as int)),
        decreases words.len() - i,
    {
        proof {
            reveal_strlit("\n");
        }
        out.append(words[i].as_str());
        out.append("\n");
        proof {
            let dv = words.deep_view();
            assert(dv.take(i + 1).drop_last() =~= dv.take(i as int));
            assert(dv.take(i + 1) =~= dv.take(i as int).push(dv[i as int]));
            lemma_encode_append(dv.take(i as int), dv[i as int]);
            assert("\n"@ =~= seq!['\n']);
            assert(out@ =~= encode_lines(dv.take(i as int)) + dv[i as int].push('\n'));
        }
        i += 1;
    }
    proof {
        assert(words.deep_view().take(words.len() as int) =~= words.deep_view());
    }
    out
}

/// Reads artifact content back into its lines.
pub fn decode_phrase(content: &str) -> (r: Vec<String>)
    ensures
        r.deep_view() == decode_lines(content@),
{
    let len = content.unicode_len();
    let mut out: Vec<String> = Vec::new();
    let mut start: usize = 0;
    let mut i: usize = 0;
    proof {
        assert(content@.skip(0) =~= content@);
        assert(out.deep_view() =~= Seq::<Seq<char>>::empty());
        assert(Seq::<Seq<char>>::empty() + decode_lines(content@) =~= decode_lines(content@));
    }
    while i < len
        invariant
            0 <= start <= i <= len,
            len == content@.len(),
            forall|k: int| start <= k < i ==> content@[k] != '\n',
            decode_lines(content@) == out.deep_view() + decode_lines(content@.skip(start as int)),
        decreases len - i,
    {
        let c = content.get_char(i);
        if c == '\n' {
            let line = content.substring_char(start, i);
            let ghost prev = out.deep_view();
            proof {
                let w = content@.subrange(start as int, i as int);
                assert(line@ =~= w);
                assert(word_wf(w)) by {
                    if w.contains('\n') {
                        let j = choose|j: int| 0 <= j < w.len() && w[j] == '\n';
                        assert(content@[start + j] != '\n');
                    }
                }
                assert(content@.skip(start as int) =~= w.push('\n') + content@.skip(i + 1));
                lemma_decode_cons(w, content@.skip(i + 1));
            }
            let owned = line.to_owned();
            out.push(owned);
            proof {
                assert(out.deep_view() =~= prev.push(line@));
                assert(prev + seq![line@] + decode_lines(content@.skip(i + 1)) =~= prev.push(
                    line@,
                ) + decode_lines(content@.skip(i + 1)));
            }
            start = i + 1;
        }
        i += 1;
    }
    if start < len {
        let line = content.substring_char(start, len);
        let ghost prev = out.deep_view();
        proof {
            let w = content@.subrange(start as int, len as int);
            assert(line@ =~= w);
            assert(word_wf(w)) by {
                if w.contains('\n') {
                    let j = choose|j: int| 0 <= j < w.len() && w[j] == '\n';
                    assert(content@[start + j] != '\n');
                }
            }
            assert(content@.skip(start as int) =~= w);
            lemma_decode_single(w);
        }
        let owned = line.to_owned();
        out.push(owned);
        proof {
            assert(out.deep_view() =~= prev.push(line@));
            assert(prev + seq![line@] =~= prev.push(line@));
            assert(out.deep_view() =~= decode_lines(content@));
        }
    } else {
        proof {
            assert(content@.skip(start as int) =~= Seq::<char>::empty());
            assert(out.deep_view() + decode_lines(Seq::<char>::empty()) =~= out.deep_view());
        }
    }
    out
}

} // verus!
