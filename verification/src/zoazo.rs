//! Emote names: the word `zoazo` followed by a few capitalised words
//! picked at random.

use vstd::prelude::*;
use vstd::string::StrSliceExecFns;
use rand::Rng;
use rand::rngs::ThreadRng;
use crate::commons::text::ascii_upper;

verus! {

/// The generator of random numbers that `rand` keeps for each thread.
#[verifier::external_type_specification]
#[verifier::external_body]
pub struct ExThreadRng(ThreadRng);

/// `rand::thread_rng`. Nothing is claimed of the generator it returns.
pub assume_specification[ rand::thread_rng ]() -> (rng: ThreadRng)
;

/// `Rng::gen_range` of `rand` on an inclusive range of `usize`. Taken on
/// trust: given a range that is not empty, it returns a number inside it.
/// Which one is left open.
#[verifier::external_body]
fn gen_range(rng: &mut ThreadRng, low: usize, high: usize) -> (n: usize)
    requires
        low <= high,
    ensures
        low <= n <= high,
{
    rng.gen_range(low..=high)
}

/// The word with its first character in upper case.
pub open spec fn capitalized(word: Seq<char>) -> Seq<char> {
    Seq::new(word.len(), |i: int| if i == 0 { ascii_upper(word[0]) } else { word[i] })
}

/// The emote name made of the given words: `zoazo`, then each word
/// capitalised, with nothing in between.
pub open spec fn emote_of(words: Seq<Seq<char>>) -> Seq<char>
    decreases words.len(),
{
    if words.len() == 0 {
        "zoazo"@
    } else {
        emote_of(words.drop_last()) + capitalized(words.last())
    }
}

/// The texts of a list of words.
pub open spec fn texts(words: Seq<&str>) -> Seq<Seq<char>> {
    Seq::new(words.len(), |i: int| words[i]@)
}

/// Builds the emote name of the given words.
pub fn zoazo_emote(words: &Vec<&str>) -> (emote: String)
    ensures
        emote@ == emote_of(texts(words@)),
{
    let mut zoazo_emote = "zoazo".to_owned();
    let mut n: usize = 0;
    assert(texts(words@).take(0) =~= Seq::<Seq<char>>::empty());
    while n < words.len()
        invariant
            n <= words.len(),
            zoazo_emote@ == emote_of(texts(words@).take(n as int)),
        decreases words.len() - n,
    {
        let w: &str = words[n];
        let ghost before = zoazo_emote@;
        let len = w.unicode_len();
        let mut i: usize = 0;
        while i < len
            invariant
                i <= len,
                len == w@.len(),
                zoazo_emote@ == before + capitalized(w@).take(i as int),
            decreases len - i,
        {
            let c = w.get_char(i);
            if i == 0 {
                zoazo_emote.push(c.to_ascii_uppercase());
            } else {
                zoazo_emote.push(c);
            }
            assert(capitalized(w@).take(i + 1) =~= capitalized(w@).take(i as int).push(
                capitalized(w@)[i as int],
            ));
            i += 1;
        }
        proof {
            let all = texts(words@);
            assert(capitalized(w@).take(len as int) =~= capitalized(w@));
            assert(all.take(n + 1).drop_last() =~= all.take(n as int));
            assert(all.take(n + 1).last() == w@);
        }
        n += 1;
    }
    assert(texts(words@).take(n as int) =~= texts(words@));
    zoazo_emote
}

/// How many words an emote name gets: one if it is short, two to five
/// otherwise.
pub open spec fn word_count_fits(short: bool, count: int) -> bool {
    if short {
        count == 1
    } else {
        2 <= count <= 5
    }
}

/// Makes an emote name of words picked at random from the list: one word
/// if `short` is set, between two and five otherwise. The same word may be
/// picked more than once.
pub fn generate_zoazo(short: bool, word_list: &Vec<&str>) -> (emote: String)
    requires
        word_list.len() > 0,
    ensures
        exists|picks: Seq<int>|
            {
                &&& word_count_fits(short, picks.len() as int)
                &&& forall|i: int| 0 <= i < picks.len() ==> 0 <= #[trigger] picks[i] < word_list.len()
                &&& emote@ == emote_of(Seq::new(picks.len(), |i: int| word_list[picks[i]]@))
            },
{
    let mut rng = rand::thread_rng();
    let zoazo_len: usize = if short {
        1
    } else {
        gen_range(&mut rng, 2, 5)
    };
    let mut zoazo_words: Vec<&str> = Vec::with_capacity(zoazo_len);
    let ghost mut picks: Seq<int> = Seq::empty();
    let mut n: usize = 0;
    while n < zoazo_len
        invariant
            n <= zoazo_len,
            word_list.len() > 0,
            picks.len() == n,
            zoazo_words.len() == n,
            forall|i: int| 0 <= i < picks.len() ==> 0 <= #[trigger] picks[i] < word_list.len(),
            forall|i: int| 0 <= i < n ==> zoazo_words[i] == word_list[picks[i]],
        decreases zoazo_len - n,
    {
        let pick = gen_range(&mut rng, 0, word_list.len() - 1);
        zoazo_words.push(word_list[pick]);
        proof {
            picks = picks.push(pick as int);
        }
        n += 1;
    }
    let emote = zoazo_emote(&zoazo_words);
    proof {
        assert(texts(zoazo_words@) =~= Seq::new(picks.len(), |i: int| word_list[picks[i]]@));
    }
    emote
}

} // verus!
