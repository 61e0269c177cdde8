//! Character-level helpers shared by the access rules and the command builder.
use vstd::prelude::*;
use vstd::string::StringSliceAdditionalSpecFns;

verus! {

/// The views of a sequence of strings.
pub open spec fn views(parts: Seq<String>) -> Seq<Seq<char>> {
    parts.map_values(|s: String| s@)
}

/// `parts` joined by single spaces.
pub open spec fn join_words(parts: Seq<Seq<char>>) -> Seq<char>
    decreases parts.len(),
{
    if parts.len() == 0 {
        Seq::empty()
    } else if parts.len() == 1 {
        parts[0]
    } else {
        join_words(parts.drop_last()) + seq![' '] + parts.last()
    }
}

/// Joining puts exactly one space between neighbours: no words join to the
/// empty text, one word joins to itself, and joining two non-empty runs of
/// words one after the other gives their joins with one space between.
pub proof fn lemma_join_words(a: Seq<Seq<char>>, b: Seq<Seq<char>>, w: Seq<char>)
    ensures
        join_words(Seq::empty()) == Seq::<char>::empty(),
        join_words(seq![w]) == w,
        a.len() > 0 && b.len() > 0 ==> join_words(a + b) == join_words(a) + seq![' '] + join_words(b),
    decreases b.len(),
{
    assert(seq![w].drop_last() =~= Seq::<Seq<char>>::empty());
    if a.len() > 0 && b.len() > 0 {
        let ab = a + b;
        assert(ab.last() == b.last());
        if b.len() == 1 {
            assert(ab.drop_last() =~= a);
            assert(b =~= seq![b[0]]);
            lemma_join_words(a, b.drop_last(), b[0]);
        } else {
            lemma_join_words(a, b.drop_last(), w);
            assert(ab.drop_last() =~= a + b.drop_last());
            assert(join_words(ab) =~= join_words(a) + seq![' '] + join_words(b));
        }
    }
}

/// A join is as long as its words together, plus one space between each two.
pub proof fn lemma_join_words_len(parts: Seq<Seq<char>>)
    requires
        parts.len() > 0,
    ensures
        join_words(parts).len() == total_len(parts) + parts.len() - 1,
    decreases parts.len(),
{
    if parts.len() > 1 {
        lemma_join_words_len(parts.drop_last());
    } else {
        assert(parts.drop_last().len() == 0);
        assert(total_len(parts.drop_last()) == 0);
    }
}

/// The lengths of the words together.
pub open spec fn total_len(parts: Seq<Seq<char>>) -> int
    decreases parts.len(),
{
    if parts.len() == 0 {
        0
    } else {
        total_len(parts.drop_last()) + parts.last().len()
    }
}

/// The characters of `s`, in order.
pub fn chars_of(s: &str) -> (v: Vec<char>)
    ensures
        v@ == s@,
{
    let mut v: Vec<char> = Vec::new();
    for c in it: s.chars()
        invariant
            v@ == it.seq().take(it.index() as int),
    {
        v.push(c);
    }
    v
}

/// The characters of `parts` joined by single spaces.
pub fn join_chars(parts: &[String]) -> (v: Vec<char>)
    ensures
        v@ == join_words(views(parts@)),
{
    let ghost words = views(parts@);
    let mut v: Vec<char> = Vec::new();
    let mut i: usize = 0;
    while i < parts.len()
        invariant
            i <= parts.len(),
            words == views(parts@),
            v@ == join_words(words.take(i as int)),
        decreases parts.len() - i,
    {
        let ghost before = v@;
        if i > 0 {
            v.push(' ');
        }
        let cs = chars_of(parts[i].as_str());
        let mut k: usize = 0;
        let ghost mid = v@;
        while k < cs.len()
            invariant
                k <= cs.len(),
                v@ == mid + cs@.take(k as int),
            decreases cs.len() - k,
        {
            v.push(cs[k]);
            k = k + 1;
            proof {
                assert(cs@.take(k as int) =~= cs@.take(k - 1) + seq![cs@[k - 1]]);
            }
        }
        proof {
            assert(cs@.take(k as int) =~= cs@);
            assert(words.take(i + 1).drop_last() =~= words.take(i as int));
            if i == 0 {
                assert(v@ =~= words.take(1)[0]);
            } else {
                assert(v@ =~= before + seq![' '] + words.take(i + 1).last());
            }
        }
        i = i + 1;
    }
    proof {
        assert(words.take(parts.len() as int) =~= words);
    }
    v
}

/// `parts` joined by single spaces, as a `String`.
pub fn join_strings(parts: &[String]) -> (s: String)
    ensures
        s@ == join_words(views(parts@)),
{
    let ghost words = views(parts@);
    let mut s = String::new();
    let mut i: usize = 0;
    while i < parts.len()
        invariant
            i <= parts.len(),
            words == views(parts@),
            s@ == join_words(words.take(i as int)),
        decreases parts.len() - i,
    {
        let ghost before = s@;
        if i > 0 {
            s.append(" ");
            proof {
                reveal_strlit(" ");
            }
        }
        s.append(parts[i].as_str());
        proof {
            assert(words.take(i + 1).drop_last() =~= words.take(i as int));
            if i == 0 {
                assert(s@ =~= words.take(1)[0]);
            } else {
                assert(s@ =~= before + seq![' '] + words.take(i + 1).last());
            }
        }
        i = i + 1;
    }
    proof {
        assert(words.take(parts.len() as int) =~= words);
    }
    s
}

/// The UTF-8 bytes of `text` followed by a newline.
pub fn line_bytes(text: &str) -> (bytes: Vec<u8>)
    ensures
        bytes@ == text.spec_bytes().push(10),
{
    let src = text.as_bytes();
    let mut bytes: Vec<u8> = Vec::new();
    let mut i: usize = 0;
    while i < src.len()
        invariant
            i <= src@.len(),
            src@ == text.spec_bytes(),
            bytes@ == src@.take(i as int),
        decreases src@.len() - i,
    {
        bytes.push(src[i]);
        i = i + 1;
        proof {
            assert(bytes@ =~= src@.take(i as int));
        }
    }
    bytes.push(10);
    proof {
        assert(src@.take(src@.len() as int) =~= src@);
    }
    bytes
}

} // verus!
