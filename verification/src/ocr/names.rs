//! The moments that file names tell, and the order of the files.
use super::types;
use super::types::FrameResult;
use crate::text::decimal;
use crate::text::decimal::parse_u64;
use crate::text::strings::chars_of;
use vstd::prelude::*;
use vstd::slice::slice_subrange;

verus! {

/// The moments of one image, in milliseconds.
#[derive(Clone, Copy, Debug, PartialEq, Eq, Structural)]
pub enum FrameTimes {
    Untimed,
    Single(u64),
    Range(u64, u64),
}

impl FrameTimes {
    /// The moment by which images are ordered.
    pub open spec fn key(self) -> u64 {
        match self {
            FrameTimes::Untimed => 0,
            FrameTimes::Single(t) => t,
            FrameTimes::Range(s, _) => s,
        }
    }

    /// The moment by which images are ordered: the start of a range.
    pub fn sort_key(&self) -> (r: u64)
        ensures
            r == self.key(),
    {
        match self {
            FrameTimes::Untimed => 0,
            FrameTimes::Single(t) => *t,
            FrameTimes::Range(s, _) => *s,
        }
    }
}

/// An image file and its moments.
#[derive(Debug)]
pub struct OcrEntry {
    pub path: String,
    pub times: FrameTimes,
}

#[verifier::ext_equal]
pub ghost struct EntryView {
    pub path: Seq<char>,
    pub times: FrameTimes,
}

impl View for OcrEntry {
    type V = EntryView;

    open spec fn view(&self) -> EntryView {
        EntryView { path: self.path@, times: self.times }
    }
}

pub open spec fn entry_views(s: Seq<OcrEntry>) -> Seq<EntryView> {
    s.map_values(|e: OcrEntry| e@)
}

/// What happens with an image whose name tells no moment.
#[derive(Clone, Copy, Debug, PartialEq, Eq, Structural)]
pub enum BadNameAction {
    Skip,
    Error,
}

/// The first place of a character; the length where it does not occur.
pub open spec fn first_at(s: Seq<char>, c: char) -> int
    decreases s.len(),
{
    if s.len() == 0 || s[0] == c {
        0
    } else {
        1 + first_at(s.skip(1), c)
    }
}

/// The number that a text of digits stands for, if it fits.
pub open spec fn number(s: Seq<char>) -> Option<u64> {
    if decimal::is_number(s) && decimal::number_of(s) <= u64::MAX {
        Some(decimal::number_of(s) as u64)
    } else {
        None
    }
}

/// The moments that a name tells: one number, or two with `_` between them.
pub open spec fn name_times(s: Seq<char>) -> Option<FrameTimes> {
    let k = first_at(s, '_');
    if k == s.len() {
        match number(s) {
            Some(t) => Some(FrameTimes::Single(t)),
            None => None,
        }
    } else {
        match (number(s.take(k)), number(s.skip(k + 1))) {
            (Some(a), Some(b)) => Some(FrameTimes::Range(a, b)),
            _ => None,
        }
    }
}

proof fn lemma_first_at(s: Seq<char>, c: char, k: int)
    requires
        0 <= k <= s.len(),
        forall|i: int| 0 <= i < k ==> s[i] != c,
        k < s.len() ==> s[k] == c,
    ensures
        first_at(s, c) == k,
    decreases s.len(),
{
    if k > 0 {
        let t = s.skip(1);
        assert forall|i: int| 0 <= i < k - 1 implies t[i] != c by {
            assert(t[i] == s[i + 1]);
        }
        lemma_first_at(t, c, k - 1);
        assert(s[0] != c);
    }
}

/// Reads the moments that the name of an image, without its extension, tells.
pub fn parse_name_times(stem: &str) -> (r: Option<FrameTimes>)
    ensures
        r == name_times(stem@),
{
    let s = chars_of(stem);
    let mut k: usize = 0;
    while k < s.len() && s[k] != '_'
        invariant
            k <= s@.len(),
            forall|i: int| 0 <= i < k ==> s@[i] != '_',
        decreases s@.len() - k,
    {
        k = k + 1;
    }
    proof {
        lemma_first_at(s@, '_', k as int);
    }
    if k == s.len() {
        match parse_u64(s.as_slice()) {
            Some(t) => Some(FrameTimes::Single(t)),
            None => None,
        }
    } else {
        let a = parse_u64(slice_subrange(s.as_slice(), 0, k));
        let b = parse_u64(slice_subrange(s.as_slice(), k + 1, s.len()));
        proof {
            assert(s@.subrange(0, k as int) =~= s@.take(k as int));
            assert(s@.subrange(k + 1, s@.len() as int) =~= s@.skip(k + 1));
        }
        match (a, b) {
            (Some(x), Some(y)) => Some(FrameTimes::Range(x, y)),
            _ => None,
        }
    }
}

/// A name made of two moments is read back as these moments.
pub proof fn range_names_read_back(start: u64, end: u64)
    ensures
        name_times(decimal::digits(start as nat).push('_') + decimal::digits(end as nat)) == Some(
            FrameTimes::Range(start, end),
        ),
{
    let a = decimal::digits(start as nat);
    let b = decimal::digits(end as nat);
    let s = a.push('_') + b;
    decimal::digits_read_back(start as nat);
    decimal::digits_read_back(end as nat);
    assert forall|i: int| 0 <= i < a.len() implies s[i] != '_' by {
        assert(s[i] == a[i]);
        assert(decimal::is_digit(a[i]));
    }
    assert(s[a.len() as int] == '_');
    lemma_first_at(s, '_', a.len() as int);
    assert(s.take(a.len() as int) =~= a);
    assert(s.skip(a.len() as int + 1) =~= b);
}

/// A name made of one moment is read back as this moment.
pub proof fn single_names_read_back(t: u64)
    ensures
        name_times(decimal::digits(t as nat)) == Some(FrameTimes::Single(t)),
{
    let a = decimal::digits(t as nat);
    decimal::digits_read_back(t as nat);
    assert forall|i: int| 0 <= i < a.len() implies a[i] != '_' by {
        assert(decimal::is_digit(a[i]));
    }
    lemma_first_at(a, '_', a.len() as int);
}

/// Zeros in front of a number do not change what it stands for.
pub proof fn leading_zeros_are_ignored(s: Seq<char>)
    requires
        decimal::is_number(s),
    ensures
        number(seq!['0'] + s) == number(s),
{
    let t = seq!['0'] + s;
    assert forall|i: int| 0 <= i < t.len() implies decimal::is_digit(#[trigger] t[i]) by {
        if i > 0 {
            assert(t[i] == s[i - 1]);
        }
    }
    lemma_zero(s);
}

proof fn lemma_zero(s: Seq<char>)
    ensures
        decimal::number_of(seq!['0'] + s) == decimal::number_of(s),
    decreases s.len(),
{
    let t = seq!['0'] + s;
    if s.len() == 0 {
        assert(t =~= seq!['0']);
        assert(t.drop_last() =~= Seq::<char>::empty());
        assert(decimal::number_of(t.drop_last()) == 0);
        assert(t.last() == '0');
    } else {
        lemma_zero(s.drop_last());
        assert(t.drop_last() =~= seq!['0'] + s.drop_last());
        assert(t.last() == s.last());
    }
}

/// The place of the last dot of a file name that starts an extension; zero where
/// there is none.
pub open spec fn extension_at(s: Seq<char>) -> int
    decreases s.len(),
{
    if s.len() <= 1 {
        0
    } else if s.last() == '.' {
        s.len() - 1
    } else {
        extension_at(s.drop_last())
    }
}

/// A letter in lower case, for the letters of the alphabet.
pub open spec fn lower(c: char) -> char {
    if 65 <= c as u32 <= 90 {
        ((c as u32 + 32) as u32) as char
    } else {
        c
    }
}

pub open spec fn lowered(s: Seq<char>) -> Seq<char> {
    s.map_values(|c: char| lower(c))
}

/// Whether an extension belongs to an image, in upper or lower case.
pub open spec fn is_image_extension(s: Seq<char>) -> bool {
    let t = lowered(s);
    ||| t == seq!['j', 'p', 'g']
    ||| t == seq!['j', 'p', 'e', 'g']
    ||| t == seq!['p', 'n', 'g']
    ||| t == seq!['b', 'm', 'p']
}

/// Whether a file name is that of an image.
pub open spec fn is_image(name: Seq<char>) -> bool {
    let k = extension_at(name);
    k > 0 && is_image_extension(name.skip(k + 1))
}

/// A file name without its extension.
pub open spec fn stem(name: Seq<char>) -> Seq<char> {
    name.take(extension_at(name))
}

fn find_extension(s: &[char]) -> (k: usize)
    ensures
        k == extension_at(s@),
        k == 0 || k < s@.len(),
{
    let mut n: usize = s.len();
    proof {
        assert(s@.take(n as int) =~= s@);
    }
    while n > 1
        invariant
            n <= s@.len(),
            extension_at(s@) == extension_at(s@.take(n as int)),
        decreases n,
    {
        proof {
            assert(s@.take(n as int).last() == s@[n - 1]);
            assert(s@.take(n as int).drop_last() =~= s@.take(n - 1));
        }
        if s[n - 1] == '.' {
            return n - 1;
        }
        n = n - 1;
    }
    0
}

/// Whether an extension is the given one, in upper or lower case.
fn is_extension(s: &[char], wanted: &[char]) -> (r: bool)
    requires
        forall|i: int| 0 <= i < wanted@.len() ==> 97 <= (#[trigger] wanted@[i]) as u32 <= 122,
    ensures
        r == (lowered(s@) == wanted@),
{
    if s.len() != wanted.len() {
        proof {
            assert(lowered(s@).len() == s@.len());
        }
        return false;
    }
    let mut i: usize = 0;
    while i < s.len()
        invariant
            i <= s@.len(),
            s@.len() == wanted@.len(),
            forall|k: int| 0 <= k < wanted@.len() ==> 97 <= (#[trigger] wanted@[k]) as u32 <= 122,
            forall|k: int| 0 <= k < i ==> lower(s@[k]) == wanted@[k],
        decreases s@.len() - i,
    {
        let a: u32 = s[i] as u32;
        let b: u32 = wanted[i] as u32;
        proof {
            assert(97 <= wanted@[i as int] as u32 <= 122);
        }
        if a != b && (a < 65 || a > 90 || a + 32 != b) {
            proof {
                assert(lowered(s@)[i as int] == lower(s@[i as int]));
                lemma_lower(s@[i as int], wanted@[i as int]);
            }
            return false;
        }
        proof {
            lemma_lower(s@[i as int], wanted@[i as int]);
        }
        i = i + 1;
    }
    proof {
        assert(lowered(s@) =~= wanted@);
    }
    true
}

pub proof fn lemma_lower(c: char, w: char)
    requires
        97 <= w as u32 <= 122,
    ensures
        lower(c) == w <==> c as u32 == w as u32 || (65 <= c as u32 <= 90 && c as u32 + 32
            == w as u32),
{
}

fn is_image_file(s: &[char], k: usize) -> (r: bool)
    requires
        k == extension_at(s@),
        k == 0 || k < s@.len(),
    ensures
        r == is_image(s@),
{
    if k == 0 {
        return false;
    }
    let n: usize = s.len();
    let ext = slice_subrange(s, k + 1, n);
    proof {
        assert(s@.subrange(k + 1, s@.len() as int) =~= s@.skip(k + 1));
    }
    let jpg: Vec<char> = vec!['j', 'p', 'g'];
    let jpeg: Vec<char> = vec!['j', 'p', 'e', 'g'];
    let png: Vec<char> = vec!['p', 'n', 'g'];
    let bmp: Vec<char> = vec!['b', 'm', 'p'];
    proof {
        assert(jpg@ =~= seq!['j', 'p', 'g']);
        assert(jpeg@ =~= seq!['j', 'p', 'e', 'g']);
        assert(png@ =~= seq!['p', 'n', 'g']);
        assert(bmp@ =~= seq!['b', 'm', 'p']);
    }
    is_extension(ext, jpg.as_slice()) || is_extension(ext, jpeg.as_slice()) || is_extension(
        ext,
        png.as_slice(),
    ) || is_extension(ext, bmp.as_slice())
}

/// The images among some files, in their order, up to the first one whose name
/// tells no moment if such names are errors.
pub open spec fn collected(names: Seq<Seq<char>>, on_bad: BadNameAction) -> Result<
    Seq<EntryView>,
    Seq<char>,
>
    decreases names.len(),
{
    if names.len() == 0 {
        Ok(Seq::empty())
    } else {
        let name = names.last();
        match collected(names.drop_last(), on_bad) {
            Err(e) => Err(e),
            Ok(before) => if !is_image(name) {
                Ok(before)
            } else {
                match name_times(stem(name)) {
                    Some(times) => Ok(before.push(EntryView { path: name, times })),
                    None => match on_bad {
                        BadNameAction::Skip => Ok(before),
                        BadNameAction::Error => Err(name),
                    },
                }
            },
        }
    }
}

/// An entry put behind those that are not later.
pub open spec fn entry_inserted(s: Seq<EntryView>, x: EntryView) -> Seq<EntryView>
    decreases s.len(),
{
    if s.len() == 0 || s.last().times.key() <= x.times.key() {
        s.push(x)
    } else {
        entry_inserted(s.drop_last(), x).push(s.last())
    }
}

/// The entries in the order of time; those of the same moment keep their order.
pub open spec fn in_time(s: Seq<EntryView>) -> Seq<EntryView>
    decreases s.len(),
{
    if s.len() == 0 {
        s
    } else {
        entry_inserted(in_time(s.drop_last()), s.last())
    }
}

/// The images among some files in the order of time, or the first bad name.
pub open spec fn listed(names: Seq<Seq<char>>, on_bad: BadNameAction) -> Result<
    Seq<EntryView>,
    Seq<char>,
> {
    match collected(names, on_bad) {
        Ok(s) => Ok(in_time(s)),
        Err(e) => Err(e),
    }
}

pub open spec fn outcome(r: Result<Vec<OcrEntry>, String>) -> Result<Seq<EntryView>, Seq<char>> {
    match r {
        Ok(v) => Ok(entry_views(v@)),
        Err(e) => Err(e@),
    }
}

/// Sorts entries by their moments.
fn sort_entries(entries: Vec<OcrEntry>) -> (r: Vec<OcrEntry>)
    ensures
        entry_views(r@) == in_time(entry_views(entries@)),
{
    let ghost all = entry_views(entries@);
    let n: usize = entries.len();
    let mut out: Vec<OcrEntry> = Vec::new();
    let mut i: usize = 0;
    proof {
        assert(entry_views(out@) =~= all.take(0));
    }
    while i < n
        invariant
            i <= n,
            n == entries@.len(),
            out@.len() == i,
            all == entry_views(entries@),
            entry_views(out@) == in_time(all.take(i as int)),
        decreases n - i,
    {
        let x = OcrEntry { path: entries[i].path.clone(), times: entries[i].times };
        let key: u64 = x.times.sort_key();
        let ghost s = entry_views(out@);
        let ghost xv = x@;
        proof {
            assert(all.take(i + 1).drop_last() =~= all.take(i as int));
            assert(all.take(i + 1).last() == xv);
        }
        let mut p: usize = out.len();
        proof {
            assert(s.take(p as int) =~= s);
            assert(entry_inserted(s, xv) + s.skip(p as int) =~= entry_inserted(s, xv));
        }
        while p > 0 && out[p - 1].times.sort_key() > key
            invariant
                p <= out@.len(),
                s == entry_views(out@),
                key == xv.times.key(),
                entry_inserted(s, xv) == entry_inserted(s.take(p as int), xv) + s.skip(p as int),
            decreases p,
        {
            proof {
                let t = s.take(p as int);
                assert(t.drop_last() =~= s.take(p - 1));
                assert(t.last() == out@[p - 1]@);
                assert(entry_inserted(s.take(p - 1), xv).push(t.last()) + s.skip(p as int)
                    =~= entry_inserted(s.take(p - 1), xv) + s.skip(p - 1));
            }
            p = p - 1;
        }
        out.insert(p, x);
        proof {
            let t = s.take(p as int);
            assert(entry_inserted(t, xv) == t.push(xv)) by {
                if p > 0 {
                    assert(t.last() == s[p - 1]);
                }
            }
            assert(entry_views(out@) =~= t.push(xv) + s.skip(p as int));
        }
        i = i + 1;
    }
    proof {
        assert(all.take(n as int) =~= all);
    }
    out
}

pub open spec fn name_views(names: Seq<String>) -> Seq<Seq<char>> {
    names.map_values(|s: String| s@)
}

/// Lists the images among some files in the order of time. A name that tells no
/// moment is left out, or is the error.
pub fn list_names(names: &[String], on_bad: BadNameAction) -> (r: Result<Vec<OcrEntry>, String>)
    ensures
        outcome(r) == listed(name_views(names@), on_bad),
{
    let ghost all = name_views(names@);
    let mut entries: Vec<OcrEntry> = Vec::new();
    let mut i: usize = 0;
    proof {
        assert(all.take(0) =~= Seq::<Seq<char>>::empty());
        assert(entry_views(entries@) =~= Seq::<EntryView>::empty());
    }
    while i < names.len()
        invariant
            i <= names@.len(),
            all == name_views(names@),
            collected(all.take(i as int), on_bad) == Ok::<Seq<EntryView>, Seq<char>>(
                entry_views(entries@),
            ),
        decreases names@.len() - i,
    {
        let name = &names[i];
        proof {
            assert(all.take(i + 1).drop_last() =~= all.take(i as int));
            assert(all.take(i + 1).last() == name@);
        }
        let s = chars_of(name.as_str());
        let k: usize = find_extension(s.as_slice());
        if is_image_file(s.as_slice(), k) {
            let head = crate::text::strings::string_of(slice_subrange(s.as_slice(), 0, k));
            proof {
                assert(s@.subrange(0, k as int) =~= s@.take(k as int));
            }
            match parse_name_times(head.as_str()) {
                Some(times) => {
                    let e = OcrEntry { path: name.clone(), times };
                    let ghost before = entries@;
                    proof {
                        assert(entry_views(before.push(e)) =~= entry_views(before).push(e@));
                    }
                    entries.push(e);
                },
                None => {
                    if on_bad == BadNameAction::Error {
                        proof {
                            lemma_error_stays(all, on_bad, i + 1);
                        }
                        return Err(name.clone());
                    }
                },
            }
        }
        i = i + 1;
    }
    proof {
        assert(all.take(names@.len() as int) =~= all);
    }
    Ok(sort_entries(entries))
}

proof fn lemma_error_stays(names: Seq<Seq<char>>, on_bad: BadNameAction, n: int)
    requires
        0 <= n <= names.len(),
        collected(names.take(n), on_bad) is Err,
    ensures
        collected(names, on_bad) == collected(names.take(n), on_bad),
    decreases names.len() - n,
{
    if n == names.len() {
        assert(names.take(n) =~= names);
    } else {
        assert(names.take(n + 1).drop_last() =~= names.take(n));
        lemma_error_stays(names, on_bad, n + 1);
    }
}

proof fn lemma_entry_inserted(s: Seq<EntryView>, x: EntryView)
    requires
        forall|i: int, j: int|
            0 <= i <= j < s.len() ==> (#[trigger] s[i]).times.key() <= (
            #[trigger] s[j]).times.key(),
    ensures
        entry_inserted(s, x).len() == s.len() + 1,
        entry_inserted(s, x).to_multiset() == s.to_multiset().insert(x),
        forall|i: int, j: int|
            0 <= i <= j < s.len() + 1 ==> (#[trigger] entry_inserted(s, x)[i]).times.key() <= (
            #[trigger] entry_inserted(s, x)[j]).times.key(),
        s.len() > 0 && s.last().times.key() > x.times.key() ==> entry_inserted(s, x).last()
            == s.last(),
        s.len() == 0 || s.last().times.key() <= x.times.key() ==> entry_inserted(s, x).last() == x,
    decreases s.len(),
{
    broadcast use vstd::seq_lib::group_to_multiset_ensures;

    if s.len() == 0 || s.last().times.key() <= x.times.key() {
        let r = s.push(x);
        assert forall|i: int, j: int| 0 <= i <= j < r.len() implies (#[trigger] r[i]).times.key()
            <= (#[trigger] r[j]).times.key() by {
            if j == s.len() && i < j {
                assert(s[i].times.key() <= s[s.len() - 1].times.key());
            }
        }
    } else {
        let t = s.drop_last();
        assert forall|i: int, j: int| 0 <= i <= j < t.len() implies (#[trigger] t[i]).times.key()
            <= (#[trigger] t[j]).times.key() by {
            assert(t[i] == s[i] && t[j] == s[j]);
        }
        lemma_entry_inserted(t, x);
        let u = entry_inserted(t, x);
        let r = u.push(s.last());
        assert(t.push(s.last()) =~= s);
        assert(r.to_multiset() =~= s.to_multiset().insert(x));
        assert forall|i: int, j: int| 0 <= i <= j < r.len() implies (#[trigger] r[i]).times.key()
            <= (#[trigger] r[j]).times.key() by {
            if i < u.len() {
                assert(u[i].times.key() <= u[u.len() - 1].times.key());
                if t.len() > 0 {
                    assert(t.last() == s[s.len() - 2]);
                    assert(s[s.len() - 2].times.key() <= s[s.len() - 1].times.key());
                }
            }
        }
    }
}

/// Listing keeps all entries and puts them in the order of time.
pub proof fn listing_is_in_time_order(s: Seq<EntryView>)
    ensures
        in_time(s).len() == s.len(),
        in_time(s).to_multiset() == s.to_multiset(),
        forall|i: int, j: int|
            0 <= i <= j < s.len() ==> (#[trigger] in_time(s)[i]).times.key() <= (
            #[trigger] in_time(s)[j]).times.key(),
    decreases s.len(),
{
    broadcast use vstd::seq_lib::group_to_multiset_ensures;

    if s.len() > 0 {
        listing_is_in_time_order(s.drop_last());
        lemma_entry_inserted(in_time(s.drop_last()), s.last());
        assert(s.drop_last().push(s.last()) =~= s);
    }
}

/// What was recognised in one image, once for each of its moments.
pub open spec fn at_moments(f: types::FrameView, times: FrameTimes) -> Seq<types::FrameView> {
    match times {
        FrameTimes::Untimed => seq![types::FrameView { timestamp: 0, ..f }],
        FrameTimes::Single(t) => seq![types::FrameView { timestamp: t as int, ..f }],
        FrameTimes::Range(s, e) => seq![
            types::FrameView { timestamp: s as int, ..f },
            types::FrameView { timestamp: e as int, ..f },
        ],
    }
}

/// Repeats what was recognised in one image for each of its moments.
pub fn expand_times(frame: FrameResult, times: FrameTimes) -> (r: Vec<FrameResult>)
    ensures
        types::frame_views(r@) == at_moments(frame@, times),
{
    let mut out: Vec<FrameResult> = Vec::new();
    let ghost v = frame@;
    let mut frame = frame;
    match times {
        FrameTimes::Untimed => {
            frame.timestamp = 0;
            out.push(frame);
        },
        FrameTimes::Single(t) => {
            frame.timestamp = t;
            out.push(frame);
        },
        FrameTimes::Range(s, e) => {
            let mut first = frame.duplicate();
            first.timestamp = s;
            frame.timestamp = e;
            out.push(first);
            out.push(frame);
        },
    }
    proof {
        assert(types::frame_views(out@) =~= at_moments(v, times));
    }
    out
}

} // verus!
