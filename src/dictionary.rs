use vstd::prelude::*;

verus! {

/// A character of the Unicode White_Space property, the set that
/// `char::is_whitespace` and `str::split_whitespace` go by.
pub open spec fn is_white_space(c: char) -> bool {
    let n = c as int;
    (9 <= n <= 13) || n == 32 || n == 133 || n == 160 || n == 5760 || (8192 <= n <= 8202) || n
        == 8232 || n == 8233 || n == 8239 || n == 8287 || n == 12288
}

/// An ASCII punctuation character: one of ``!"#$%&'()*+,-./:;<=>?@[\]^_`{|}~``.
pub open spec fn is_ascii_punct(c: char) -> bool {
    let n = c as int;
    (33 <= n <= 47) || (58 <= n <= 64) || (91 <= n <= 96) || (123 <= n <= 126)
}

/// `w` without the ASCII punctuation at its end.
pub open spec fn trim_end_punct(w: Seq<char>) -> Seq<char>
    decreases w.len(),
{
    if w.len() > 0 && is_ascii_punct(w.last()) {
        trim_end_punct(w.drop_last())
    } else {
        w
    }
}

/// The token `cur` once ended: nothing if it is empty, else its trimmed form.
pub open spec fn finish(cur: Seq<char>) -> Seq<Seq<char>> {
    if cur.len() > 0 {
        seq![trim_end_punct(cur)]
    } else {
        Seq::empty()
    }
}

/// The trimmed whitespace-separated tokens of `s` from position `i` on,
/// `cur` being the part of a token read before `i`.
pub open spec fn tokens_from(s: Seq<char>, i: nat, cur: Seq<char>) -> Seq<Seq<char>>
    decreases s.len() - i,
{
    if i >= s.len() {
        finish(cur)
    } else if is_white_space(s[i as int]) {
        finish(cur) + tokens_from(s, i + 1, Seq::empty())
    } else {
        tokens_from(s, i + 1, cur.push(s[i as int]))
    }
}

/// The words that a line of a dictionary contributes: its whitespace-separated
/// tokens, each without trailing ASCII punctuation. A token made only of
/// such punctuation gives the empty word.
pub open spec fn dictionary_words(s: Seq<char>) -> Seq<Seq<char>> {
    tokens_from(s, 0, Seq::empty())
}

/// Whether `c` is white space, as `char::is_whitespace` has it.
pub fn white_space(c: char) -> (r: bool)
    ensures
        r == is_white_space(c),
{
    let n = c as u32;
    (9 <= n && n <= 13) || n == 32 || n == 133 || n == 160 || n == 5760 || (8192 <= n && n
        <= 8202) || n == 8232 || n == 8233 || n == 8239 || n == 8287 || n == 12288
}

/// Whether `c` is ASCII punctuation, as `char::is_ascii_punctuation` has it.
pub fn ascii_punct(c: char) -> (r: bool)
    ensures
        r == is_ascii_punct(c),
{
    let n = c as u32;
    (33 <= n && n <= 47) || (58 <= n && n <= 64) || (91 <= n && n <= 96) || (123 <= n && n <= 126)
}

/// The characters of `s`, in order.
fn chars_of(s: &str) -> (r: Vec<char>)
    ensures
        r@ == s@,
{
    let mut v: Vec<char> = Vec::new();
    for c in it: s.chars()
        invariant
            v@ == it.seq().take(it.index() as int),
    {
        v.push(c);
    }
    assert(v@ =~= s@);
    v
}

/// The token `line[start..end]` (counted in characters), its trailing ASCII
/// punctuation cut off.
fn trimmed(line: &str, cs: &Vec<char>, start: usize, end: usize) -> (r: String)
    requires
        cs@ == line@,
        start <= end <= cs@.len(),
    ensures
        r@ == trim_end_punct(line@.subrange(start as int, end as int)),
{
    let ghost whole = line@.subrange(start as int, end as int);
    let mut e: usize = end;
    while e > start && ascii_punct(cs[e - 1])
        invariant
            cs@ == line@,
            start <= e <= end,
            end <= cs@.len(),
            trim_end_punct(line@.subrange(start as int, e as int)) == trim_end_punct(whole),
        decreases e,
    {
        proof {
            assert(line@.subrange(start as int, e as int).drop_last() =~= line@.subrange(
                start as int,
                e - 1,
            ));
        }
        e -= 1;
    }
    line.substring_char(start, e).to_owned()
}

/// Splits a line of a dictionary into the words it contributes.
pub fn split_words(line: &str) -> (r: Vec<String>)
    ensures
        r@.map_values(|w: String| w@) == dictionary_words(line@),
{
    let cs = chars_of(line);
    let ghost s = line@;
    let mut out: Vec<String> = Vec::new();
    let ghost mut outv: Seq<Seq<char>> = Seq::empty();
    let mut start: usize = 0;
    let mut i: usize = 0;
    proof {
        assert(s.subrange(0, 0) =~= Seq::<char>::empty());
    }
    while i < cs.len()
        invariant
            cs@ == s,
            s == line@,
            start <= i <= s.len(),
            out@.len() == outv.len(),
            forall|k: int| 0 <= k < outv.len() ==> (#[trigger] out@[k])@ == outv[k],
            outv + tokens_from(s, i as nat, s.subrange(start as int, i as int)) == dictionary_words(s),
        decreases s.len() - i,
    {
        let ghost cur = s.subrange(start as int, i as int);
        let c = cs[i];
        if white_space(c) {
            proof {
                assert(tokens_from(s, i as nat, cur) == finish(cur) + tokens_from(
                    s,
                    (i + 1) as nat,
                    Seq::empty(),
                ));
                assert(s.subrange(i + 1, i + 1) =~= Seq::<char>::empty());
            }
            if i > start {
                let word = trimmed(line, &cs, start, i);
                proof {
                    assert(outv + (finish(cur) + tokens_from(s, (i + 1) as nat, Seq::empty()))
                        =~= outv.push(word@) + tokens_from(s, (i + 1) as nat, Seq::empty()));
                    outv = outv.push(word@);
                }
                out.push(word);
            } else {
                proof {
                    assert(finish(cur) + tokens_from(s, (i + 1) as nat, Seq::empty())
                        =~= tokens_from(s, (i + 1) as nat, Seq::empty()));
                }
            }
            start = i + 1;
        } else {
            proof {
                assert(cur.push(c) =~= s.subrange(start as int, i + 1));
            }
        }
        i += 1;
    }
    let ghost cur = s.subrange(start as int, i as int);
    proof {
        assert(tokens_from(s, i as nat, cur) == finish(cur));
    }
    if i > start {
        let word = trimmed(line, &cs, start, i);
        proof {
            assert(outv + finish(cur) =~= outv.push(word@));
            outv = outv.push(word@);
        }
        out.push(word);
    } else {
        proof {
            assert(outv + finish(cur) =~= outv);
        }
    }
    proof {
        assert(out@.map_values(|w: String| w@) =~= outv);
    }
    out
}

} // verus!
