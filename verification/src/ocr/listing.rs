//! Which files are listed, and for which moments their images count.
use super::names;
use super::names::{BadNameAction, EntryView, FrameTimes};
use super::types;
use crate::text::decimal;
use vstd::prelude::*;

verus! {

/// Whether a text spells a word in small or capital letters.
pub open spec fn spells(s: Seq<char>, word: Seq<char>) -> bool {
    &&& s.len() == word.len()
    &&& forall|i: int|
        0 <= i < s.len() ==> (#[trigger] s[i]) as u32 == word[i] as u32 || s[i] as u32 + 32
            == word[i] as u32
}

/// Whether a text is an extension of image files.
pub open spec fn names_images(s: Seq<char>) -> bool {
    ||| spells(s, seq!['p', 'n', 'g'])
    ||| spells(s, seq!['j', 'p', 'g'])
    ||| spells(s, seq!['j', 'p', 'e', 'g'])
    ||| spells(s, seq!['b', 'm', 'p'])
}

proof fn lemma_spells(s: Seq<char>, word: Seq<char>)
    requires
        forall|i: int| 0 <= i < word.len() ==> 97 <= (#[trigger] word[i]) as u32 <= 122,
    ensures
        (names::lowered(s) == word) == spells(s, word),
{
    let t = names::lowered(s);
    if t == word {
        assert forall|i: int| 0 <= i < s.len() implies (#[trigger] s[i]) as u32 == word[i] as u32
            || s[i] as u32 + 32 == word[i] as u32 by {
            assert(t[i] == names::lower(s[i]));
            names::lemma_lower(s[i], word[i]);
        }
    }
    if spells(s, word) {
        assert forall|i: int| 0 <= i < s.len() implies t[i] == word[i] by {
            assert(s[i] as u32 == word[i] as u32 || s[i] as u32 + 32 == word[i] as u32);
            assert(97 <= word[i] as u32 <= 122);
            names::lemma_lower(s[i], word[i]);
        }
        assert(t =~= word);
    }
}

proof fn lemma_extension(s: Seq<char>, ext: Seq<char>)
    requires
        s.len() > 0,
        forall|i: int| 0 <= i < ext.len() ==> #[trigger] ext[i] != '.',
    ensures
        names::extension_at(s.push('.') + ext) == s.len(),
    decreases ext.len(),
{
    let name = s.push('.') + ext;
    if ext.len() == 0 {
        assert(name =~= s.push('.'));
    } else {
        let e = ext.drop_last();
        assert(forall|i: int| 0 <= i < e.len() ==> e[i] == #[trigger] ext[i]);
        assert(ext[ext.len() - 1] != '.');
        assert(name.last() == ext.last());
        lemma_extension(s, e);
        assert(name.drop_last() =~= s.push('.') + e);
    }
}

/// A name is read at its last dot: what stands behind it, in small or capital
/// letters, tells an image, and what stands before it tells the moments.
pub proof fn names_are_read_at_the_last_dot(s: Seq<char>, ext: Seq<char>)
    requires
        s.len() > 0,
        forall|i: int| 0 <= i < ext.len() ==> #[trigger] ext[i] != '.',
    ensures
        names::stem(s.push('.') + ext) == s,
        names::is_image(s.push('.') + ext) == names_images(ext),
{
    let name = s.push('.') + ext;
    lemma_extension(s, ext);
    assert(name.take(s.len() as int) =~= s);
    assert(name.skip(s.len() as int + 1) =~= ext);
    lemma_spells(ext, seq!['p', 'n', 'g']);
    lemma_spells(ext, seq!['j', 'p', 'g']);
    lemma_spells(ext, seq!['j', 'p', 'e', 'g']);
    lemma_spells(ext, seq!['b', 'm', 'p']);
}

proof fn lemma_no_dot(s: Seq<char>)
    requires
        forall|i: int| 1 <= i < s.len() ==> #[trigger] s[i] != '.',
    ensures
        names::extension_at(s) == 0,
    decreases s.len(),
{
    if s.len() > 1 {
        assert(s[s.len() - 1] != '.');
        let t = s.drop_last();
        assert(forall|i: int| 1 <= i < t.len() ==> t[i] == #[trigger] s[i]);
        lemma_no_dot(t);
    }
}

/// A name with no dot behind its first character is no image.
pub proof fn names_without_extension_are_no_images(s: Seq<char>)
    requires
        forall|i: int| 1 <= i < s.len() ==> #[trigger] s[i] != '.',
    ensures
        !names::is_image(s),
{
    lemma_no_dot(s);
}

/// One more name adds its entry if it is an image that tells its moments. Other
/// files never count; an image that tells no moment is passed over or, if that
/// is an error, refused by its name. The first error stays.
pub proof fn timed_images_are_collected(
    files: Seq<Seq<char>>,
    name: Seq<char>,
    on_bad: BadNameAction,
)
    ensures
        names::collected(Seq::empty(), on_bad) == Ok::<Seq<EntryView>, Seq<char>>(Seq::empty()),
        match names::collected(files, on_bad) {
            Err(e) => names::collected(files.push(name), on_bad) == Err::<
                Seq<EntryView>,
                Seq<char>,
            >(e),
            Ok(before) => {
                let after = names::collected(files.push(name), on_bad);
                let times = names::name_times(names::stem(name));
                if names::is_image(name) && times is Some {
                    after == Ok::<Seq<EntryView>, Seq<char>>(
                        before.push(EntryView { path: name, times: times->0 }),
                    )
                } else if names::is_image(name) && on_bad == BadNameAction::Error {
                    after == Err::<Seq<EntryView>, Seq<char>>(name)
                } else {
                    after == Ok::<Seq<EntryView>, Seq<char>>(before)
                }
            },
        },
{
    assert(files.push(name).drop_last() =~= files);
}

/// What is listed is what was collected, in the order of time; where that failed,
/// so does the listing.
pub proof fn collected_images_are_listed(files: Seq<Seq<char>>, on_bad: BadNameAction)
    ensures
        match names::collected(files, on_bad) {
            Err(e) => names::listed(files, on_bad) == Err::<Seq<EntryView>, Seq<char>>(e),
            Ok(s) => names::listed(files, on_bad) is Ok && names::listed(
                files,
                on_bad,
            )->Ok_0.to_multiset() == s.to_multiset(),
        },
{
    if let Ok(s) = names::collected(files, on_bad) {
        names::listing_is_in_time_order(s);
    }
}

proof fn lemma_first(s: Seq<char>, c: char)
    ensures
        0 <= names::first_at(s, c) <= s.len(),
        names::first_at(s, c) < s.len() ==> s[names::first_at(s, c)] == c,
        forall|i: int| 0 <= i < names::first_at(s, c) ==> #[trigger] s[i] != c,
    decreases s.len(),
{
    if s.len() > 0 && s[0] != c {
        let t = s.skip(1);
        lemma_first(t, c);
        let k = names::first_at(t, c);
        assert forall|i: int| 0 <= i < k + 1 implies #[trigger] s[i] != c by {
            if i > 0 {
                assert(s[i] == t[i - 1]);
            }
        }
        if k < t.len() {
            assert(s[k + 1] == t[k]);
        }
    }
}

/// A name tells moments only if it is one number, or two with a low line between
/// them; a range keeps the order of its two numbers.
pub proof fn only_numbers_tell_moments(s: Seq<char>)
    ensures
        match names::name_times(s) {
            None => !(decimal::is_number(s) && decimal::number_of(s) <= u64::MAX),
            Some(FrameTimes::Untimed) => false,
            Some(FrameTimes::Single(t)) => decimal::is_number(s) && decimal::number_of(s) == t,
            Some(FrameTimes::Range(a, b)) => exists|k: int|
                0 <= k < s.len() && #[trigger] s[k] == '_' && decimal::is_number(s.take(k))
                    && decimal::is_number(s.skip(k + 1)) && decimal::number_of(s.take(k)) == a
                    && decimal::number_of(s.skip(k + 1)) == b,
        },
{
    let k = names::first_at(s, '_');
    lemma_first(s, '_');
    if decimal::is_number(s) {
        decimal::lemma_not_negative(s);
        if k < s.len() {
            assert(decimal::is_digit(s[k]));
        }
    }
    if k < s.len() {
        if decimal::is_number(s.take(k)) {
            decimal::lemma_not_negative(s.take(k));
        }
        if decimal::is_number(s.skip(k + 1)) {
            decimal::lemma_not_negative(s.skip(k + 1));
        }
        assert(s[k] == '_');
    }
}

/// What was recognised in an image counts once for one moment, and at both ends
/// of a range, with nothing else changed.
pub proof fn images_count_at_their_moments(f: types::FrameView, a: u64, b: u64, i: int)
    requires
        0 <= i < 2,
    ensures
        names::at_moments(f, FrameTimes::Untimed).len() == 1,
        names::at_moments(f, FrameTimes::Untimed)[0].timestamp == 0,
        names::at_moments(f, FrameTimes::Single(a)).len() == 1,
        names::at_moments(f, FrameTimes::Single(a))[0].timestamp == a,
        names::at_moments(f, FrameTimes::Single(a))[0].text == f.text,
        names::at_moments(f, FrameTimes::Single(a))[0].boxes == f.boxes,
        names::at_moments(f, FrameTimes::Range(a, b)).len() == 2,
        names::at_moments(f, FrameTimes::Range(a, b))[0].timestamp == a,
        names::at_moments(f, FrameTimes::Range(a, b))[1].timestamp == b,
        names::at_moments(f, FrameTimes::Range(a, b))[i].text == f.text,
        names::at_moments(f, FrameTimes::Range(a, b))[i].boxes == f.boxes,
        names::at_moments(f, FrameTimes::Range(a, b))[i].text_confidence == f.text_confidence,
        names::at_moments(f, FrameTimes::Range(a, b))[i].x_range == f.x_range,
        names::at_moments(f, FrameTimes::Range(a, b))[i].y_range == f.y_range,
{
}

} // verus!
