//! The provinces of the districts that a text describes.
//!
//! The text holds batches.  A batch begins after a line with the name of
//! the batch between quotes; each of its lines names a place between
//! quotes and, in square brackets, the places linked with it.  A line
//! without a square bracket ends the batch.  The provinces of a batch are
//! the groups of its places that are linked, directly or by way of others.
use vstd::prelude::*;
use crate::provinces::{count_groups, group_count};
use crate::text::{
    chars_of, decimal_digits, has_char, push_comma, push_decimal, remove_char, same_text, split,
    split_by, trim, trim_of, without,
};

verus! {

/// Two names: a place and a place linked with it.
pub type Link = (Seq<char>, Seq<char>);

/// A batch in the model: its name and the links of its places.
pub type BatchModel = (Seq<char>, Seq<Link>);

/// A batch: its name and the links of its places.
pub struct Batch {
    pub id: Vec<char>,
    pub links: Vec<(Vec<char>, Vec<char>)>,
}

/// The links of `links` as pairs of texts.
pub open spec fn links_view(links: Seq<(Vec<char>, Vec<char>)>) -> Seq<Link> {
    Seq::new(links.len(), |i: int| (links[i].0@, links[i].1@))
}

impl View for Batch {
    type V = BatchModel;

    open spec fn view(&self) -> BatchModel {
        (self.id@, links_view(self.links@))
    }
}

/// The batches of `batches` in the model.
pub open spec fn batches_view(batches: Seq<Batch>) -> Seq<BatchModel> {
    Seq::new(batches.len(), |i: int| batches[i]@)
}

/// The texts of `names`.
pub open spec fn names_view(names: Seq<Vec<char>>) -> Seq<Seq<char>> {
    Seq::new(names.len(), |i: int| names[i]@)
}

/// Whether `a` comes before `b` in the order of the dictionary: at the
/// first place where they differ `a` has the smaller character, or `a`
/// ends there and `b` goes on.
pub open spec fn comes_before(a: Seq<char>, b: Seq<char>) -> bool
    decreases a.len(),
{
    if b.len() == 0 {
        false
    } else if a.len() == 0 {
        true
    } else if a[0] != b[0] {
        a[0] < b[0]
    } else {
        comes_before(a.skip(1), b.skip(1))
    }
}

/// The lines of `text`: what the line feeds part, without the empty rest
/// after a last line feed.
pub open spec fn lines_of(text: Seq<char>) -> Seq<Seq<char>> {
    let parts = split_by(text, '\n');
    if parts.last().len() == 0 {
        parts.drop_last()
    } else {
        parts
    }
}

/// The name between the first two quotes of `line`, or up to its end where
/// it has one quote only; nothing where it has none.
pub open spec fn quoted_name(line: Seq<char>) -> Option<Seq<char>> {
    let parts = split_by(line, '"');
    if parts.len() >= 2 {
        Some(parts[1])
    } else {
        None
    }
}

/// A name taken from a piece of a line: the piece without quotes, of that
/// what follows the first opening bracket, of that what comes before the
/// first closing bracket, and of that what is no white space at its ends.
pub open spec fn clean_item(piece: Seq<char>) -> Seq<char> {
    let bare = without(piece, '"');
    let opened = if bare.contains('[') {
        split_by(bare, '[')[1]
    } else {
        bare
    };
    let closed = if opened.contains(']') {
        split_by(opened, ']')[0]
    } else {
        opened
    };
    trim_of(closed)
}

/// The names of the pieces of `line` that commas part, without the last
/// where it is empty.
pub open spec fn items_of(line: Seq<char>) -> Seq<Seq<char>> {
    let pieces = split_by(line, ',');
    let names = Seq::new(pieces.len(), |i: int| clean_item(pieces[i]));
    if names.len() > 0 && names.last().len() == 0 {
        names.drop_last()
    } else {
        names
    }
}

/// The links that `line` states: its place with itself and with each of
/// the places in its brackets.  Nothing where the line names no place.
pub open spec fn links_of_line(line: Seq<char>) -> Option<Seq<Link>> {
    match quoted_name(line) {
        None => None,
        Some(place) => Some(
            seq![(place, place)] + Seq::new(
                items_of(line).len(),
                |i: int| (place, items_of(line)[i]),
            ),
        ),
    }
}

/// Tells whether `a` comes before `b` in the order of the dictionary.
pub fn is_before(a: &Vec<char>, b: &Vec<char>) -> (before: bool)
    ensures
        before == comes_before(a@, b@),
{
    let mut i: usize = 0;
    assert(a@.skip(0) =~= a@ && b@.skip(0) =~= b@);
    while i < a.len() && i < b.len()
        invariant
            i <= a.len(),
            i <= b.len(),
            comes_before(a@, b@) == comes_before(a@.skip(i as int), b@.skip(i as int)),
        decreases a.len() - i,
    {
        proof {
            assert(a@.skip(i as int)[0] == a[i as int]);
            assert(b@.skip(i as int)[0] == b[i as int]);
            assert(a@.skip(i as int).skip(1) =~= a@.skip(i + 1));
            assert(b@.skip(i as int).skip(1) =~= b@.skip(i + 1));
        }
        if a[i] != b[i] {
            return a[i] < b[i];
        }
        i = i + 1;
    }
    i < b.len()
}

/// The name between the first two quotes of `line`.
pub fn read_quoted_name(line: &Vec<char>) -> (name: Option<Vec<char>>)
    ensures
        match name {
            Some(n) => quoted_name(line@) == Some(n@),
            None => quoted_name(line@) is None,
        },
{
    let mut parts: Vec<Vec<char>> = split(line, '"');
    if parts.len() >= 2 {
        Some(parts.swap_remove(1))
    } else {
        None
    }
}

/// The name that the piece `piece` of a line holds.
pub fn read_item(piece: &Vec<char>) -> (name: Vec<char>)
    ensures
        name@ == clean_item(piece@),
{
    let bare: Vec<char> = remove_char(piece, '"');
    let opened: Vec<char> = if has_char(&bare, '[') {
        let mut parts: Vec<Vec<char>> = split(&bare, '[');
        proof {
            lemma_split_count(bare@, '[');
        }
        parts.swap_remove(1)
    } else {
        bare
    };
    let closed: Vec<char> = if has_char(&opened, ']') {
        let mut parts: Vec<Vec<char>> = split(&opened, ']');
        proof {
            lemma_split_count(opened@, ']');
        }
        parts.swap_remove(0)
    } else {
        opened
    };
    trim(&closed)
}

/// The links that `line` states.
pub fn read_links(line: &Vec<char>) -> (links: Option<Vec<(Vec<char>, Vec<char>)>>)
    ensures
        match links {
            Some(l) => links_of_line(line@) == Some(links_view(l@)),
            None => links_of_line(line@) is None,
        },
{
    let place: Vec<char> = match read_quoted_name(line) {
        Some(name) => name,
        None => {
            return None;
        },
    };
    let pieces: Vec<Vec<char>> = split(line, ',');
    let mut names: Vec<Vec<char>> = Vec::new();
    let mut i: usize = 0;
    while i < pieces.len()
        invariant
            i <= pieces.len(),
            pieces.len() == split_by(line@, ',').len(),
            forall|j: int|
                0 <= j < pieces.len() ==> (#[trigger] pieces[j])@ == split_by(line@, ',')[j],
            names.len() == i,
            forall|j: int|
                0 <= j < i ==> (#[trigger] names[j])@ == clean_item(split_by(line@, ',')[j]),
        decreases pieces.len() - i,
    {
        names.push(read_item(&pieces[i]));
        i = i + 1;
    }
    if names.len() > 0 && names[names.len() - 1].len() == 0 {
        names.pop();
    }
    assert(names_view(names@) =~= items_of(line@));
    let mut links: Vec<(Vec<char>, Vec<char>)> = Vec::new();
    links.push((place.clone(), place.clone()));
    let mut k: usize = 0;
    while k < names.len()
        invariant
            k <= names.len(),
            names_view(names@) == items_of(line@),
            links.len() == k + 1,
            links[0].0@ == place@ && links[0].1@ == place@,
            forall|j: int| 1 <= j <= k ==> (#[trigger] links[j]).0@ == place@ && links[j].1@
                == names[j - 1]@,
        decreases names.len() - k,
    {
        links.push((place.clone(), names[k].clone()));
        k = k + 1;
    }
    proof {
        let stated = links_of_line(line@)->Some_0;
        assert(links_view(links@).len() == stated.len());
        assert forall|j: int| 0 <= j < links.len() implies links_view(links@)[j] == stated[j] by {
            if j >= 1 {
                assert(names_view(names@)[j - 1] == names[j - 1]@);
            }
        }
        assert(links_view(links@) =~= stated);
    }
    Some(links)
}

/// A text that holds the separator has two fields or more.
pub proof fn lemma_split_count(s: Seq<char>, sep: char)
    requires
        s.contains(sep),
    ensures
        split_by(s, sep).len() >= 2,
    decreases s.len(),
{
    if s.len() > 0 {
        crate::text::lemma_split_fields(s.drop_last(), sep);
        if s.last() != sep {
            let i = choose|i: int| 0 <= i < s.len() && s[i] == sep;
            assert(s.drop_last()[i] == sep);
            lemma_split_count(s.drop_last(), sep);
        }
    }
}

/// The batches `done`, which are in the order of their names, with `batch`
/// put in at its place, or in place of the batch of the same name.
pub open spec fn put_batch(done: Seq<BatchModel>, batch: BatchModel) -> Seq<BatchModel>
    decreases done.len(),
{
    if done.len() == 0 {
        seq![batch]
    } else if done.last().0 == batch.0 {
        done.drop_last().push(batch)
    } else if comes_before(done.last().0, batch.0) {
        done.push(batch)
    } else {
        put_batch(done.drop_last(), batch).push(done.last())
    }
}

/// How far a text has been read: the batches that have ended, in the order
/// of their names, and the batch that has begun.
pub struct Progress {
    pub done: Seq<BatchModel>,
    pub open: Option<BatchModel>,
}

/// What has been read after one more line.  `before` is the line before
/// it, which names the batch that the line begins where none is open.
///
/// A line with an opening bracket adds its links to the batch that is open,
/// or begins a batch; any other line ends the batch that is open.  Nothing
/// is read where a line with a bracket names no place, or begins a batch
/// after a line without a name or as the first line.
pub open spec fn after_line(
    progress: Progress,
    before: Option<Seq<char>>,
    line: Seq<char>,
) -> Option<Progress> {
    let stated = trim_of(line);
    if stated.contains('[') {
        match progress.open {
            Some(batch) => match links_of_line(stated) {
                None => None,
                Some(links) => Some(
                    Progress { done: progress.done, open: Some((batch.0, batch.1 + links)) },
                ),
            },
            None => match before {
                None => None,
                Some(heading) => match quoted_name(trim_of(heading)) {
                    None => None,
                    Some(id) => match links_of_line(stated) {
                        None => None,
                        Some(links) => Some(
                            Progress { done: progress.done, open: Some((id, links)) },
                        ),
                    },
                },
            },
        }
    } else {
        match progress.open {
            Some(batch) => Some(Progress { done: put_batch(progress.done, batch), open: None }),
            None => Some(progress),
        }
    }
}

/// What has been read after the first `n` of `lines`.
pub open spec fn after_lines(lines: Seq<Seq<char>>, n: nat) -> Option<Progress>
    decreases n,
{
    if n == 0 {
        Some(Progress { done: Seq::empty(), open: None })
    } else {
        match after_lines(lines, (n - 1) as nat) {
            None => None,
            Some(progress) => after_line(
                progress,
                if n >= 2 {
                    Some(lines[n - 2])
                } else {
                    None
                },
                lines[n - 1],
            ),
        }
    }
}

/// The batches of `text` that have ended, in the order of their names; of
/// batches of one name the last.  Nothing where the text cannot be read.
pub open spec fn batches_of(text: Seq<char>) -> Option<Seq<BatchModel>> {
    match after_lines(lines_of(text), lines_of(text).len()) {
        None => None,
        Some(progress) => Some(progress.done),
    }
}

/// `names` with `name` added at its end, unless it is among them.
pub open spec fn with_name(names: Seq<Seq<char>>, name: Seq<char>) -> Seq<Seq<char>> {
    if names.contains(name) {
        names
    } else {
        names.push(name)
    }
}

/// The place of the first occurrence of `name` in `names`; the length of
/// `names` where it does not occur.
pub open spec fn place_of(names: Seq<Seq<char>>, name: Seq<char>) -> nat
    decreases names.len(),
{
    if names.len() == 0 {
        0
    } else if names[0] == name {
        0
    } else {
        1 + place_of(names.skip(1), name)
    }
}

/// The places that `links` name, each once, in the order in which they
/// first occur.
pub open spec fn places_of(links: Seq<Link>) -> Seq<Seq<char>>
    decreases links.len(),
{
    if links.len() == 0 {
        Seq::empty()
    } else {
        with_name(with_name(places_of(links.drop_last()), links.last().0), links.last().1)
    }
}

/// The links of `links` with each place replaced by its number: its place
/// among the places that the links up to it name.
pub open spec fn numbered(links: Seq<Link>) -> Seq<(usize, usize)>
    decreases links.len(),
{
    if links.len() == 0 {
        Seq::empty()
    } else {
        numbered(links.drop_last()).push(
            (
                place_of(places_of(links), links.last().0) as usize,
                place_of(places_of(links), links.last().1) as usize,
            ),
        )
    }
}

/// The number of provinces of a batch with the links `links`: the number
/// of groups of its places.
pub open spec fn provinces_of(links: Seq<Link>) -> nat {
    group_count(places_of(links).len(), numbered(links))
}

/// The report on `batches`: the numbers of their provinces in decimal
/// notation, with a comma between each two.
pub open spec fn report_of(batches: Seq<BatchModel>) -> Seq<char>
    decreases batches.len(),
{
    if batches.len() == 0 {
        Seq::empty()
    } else if batches.len() == 1 {
        decimal_digits(provinces_of(batches[0].1))
    } else {
        report_of(batches.drop_last()) + seq![','] + decimal_digits(
            provinces_of(batches.last().1),
        )
    }
}

/// The number of `name` among `names`, after adding it where it is not
/// among them.
pub fn intern(names: &mut Vec<Vec<char>>, name: &Vec<char>) -> (place: usize)
    ensures
        names_view(final(names)@) == with_name(names_view(old(names)@), name@),
        place == place_of(names_view(final(names)@), name@),
        place < final(names).len(),
        final(names).len() >= old(names).len(),
{
    let mut i: usize = 0;
    while i < names.len()
        invariant
            i <= names.len(),
            *names == *old(names),
            forall|j: int| 0 <= j < i ==> (#[trigger] names[j])@ != name@,
        decreases names.len() - i,
    {
        if same_text(&names[i], name) {
            proof {
                assert(names_view(names@)[i as int] == name@);
                lemma_place_of(names_view(names@), name@, i as int);
            }
            return i;
        }
        i = i + 1;
    }
    proof {
        let before = names_view(names@);
        if before.contains(name@) {
            let j = choose|j: int| 0 <= j < before.len() && before[j] == name@;
            assert(names[j]@ == name@);
        }
    }
    names.push(name.clone());
    proof {
        assert(names_view(names@) =~= names_view(old(names)@).push(name@));
        lemma_place_of(names_view(names@), name@, i as int);
    }
    i
}

/// The place of a name is where it first occurs.
pub proof fn lemma_place_of(names: Seq<Seq<char>>, name: Seq<char>, i: int)
    requires
        0 <= i < names.len(),
        names[i] == name,
        forall|j: int| 0 <= j < i ==> names[j] != name,
    ensures
        place_of(names, name) == i,
    decreases i,
{
    if i > 0 {
        assert(names[0] != name);
        let rest = names.skip(1);
        assert(rest[i - 1] == names[i]);
        assert forall|j: int| 0 <= j < i - 1 implies rest[j] != name by {
            assert(rest[j] == names[j + 1]);
        }
        lemma_place_of(rest, name, i - 1);
    }
}

/// The number of provinces of a batch with the links `links`.
pub fn count_batch(links: &Vec<(Vec<char>, Vec<char>)>) -> (count: usize)
    ensures
        count == provinces_of(links_view(links@)),
{
    let ghost all = links_view(links@);
    let mut names: Vec<Vec<char>> = Vec::new();
    let mut pairs: Vec<(usize, usize)> = Vec::new();
    let mut i: usize = 0;
    assert(all.take(0) =~= Seq::<Link>::empty());
    assert(names_view(names@) =~= Seq::<Seq<char>>::empty());
    while i < links.len()
        invariant
            i <= links.len(),
            all == links_view(links@),
            names_view(names@) == places_of(all.take(i as int)),
            pairs@ == numbered(all.take(i as int)),
            forall|k: int|
                0 <= k < pairs.len() ==> (#[trigger] pairs[k]).0 < names.len() && pairs[k].1
                < names.len(),
        decreases links.len() - i,
    {
        let ghost before_names = names_view(names@);
        let first: usize = intern(&mut names, &links[i].0);
        let ghost between = names_view(names@);
        let second: usize = intern(&mut names, &links[i].1);
        proof {
            let next = all.take(i + 1);
            assert(next.drop_last() =~= all.take(i as int));
            assert(next.last() == all[i as int]);
            assert(all[i as int] == (links[i as int].0@, links[i as int].1@));
            let now = names_view(names@);
            assert(now == places_of(next));
            // The first place keeps its number when the second is added.
            if !before_names.contains(links[i as int].0@) {
                assert(between[between.len() - 1] == links[i as int].0@);
            } else {
                let j = choose|j: int|
                    0 <= j < before_names.len() && before_names[j] == links[i as int].0@;
                assert(between[j] == links[i as int].0@);
            }
            lemma_place_kept(between, links[i as int].0@, links[i as int].1@);
        }
        pairs.push((first, second));
        i = i + 1;
    }
    assert(all.take(i as int) =~= all);
    assert(names_view(names@).len() == names.len());
    count_groups(names.len(), &pairs)
}

/// A name that is among the names keeps its place when a name is added.
pub proof fn lemma_place_kept(names: Seq<Seq<char>>, name: Seq<char>, added: Seq<char>)
    requires
        names.contains(name),
    ensures
        place_of(with_name(names, added), name) == place_of(names, name),
        place_of(names, name) < names.len(),
    decreases names.len(),
{
    let i = choose|i: int| 0 <= i < names.len() && names[i] == name;
    if names[0] != name {
        let rest = names.skip(1);
        assert(rest[i - 1] == names[i]);
        lemma_place_kept(rest, name, added);
        if !names.contains(added) {
            assert(names.push(added).skip(1) =~= rest.push(added));
            if rest.contains(added) {
                let j = choose|j: int| 0 <= j < rest.len() && rest[j] == added;
                assert(names[j + 1] == added);
            }
        }
    }
}

/// Puts `batch` among the batches `done`, which are in the order of their
/// names: at its place, or in place of the batch of the same name.
pub fn store_batch(done: &mut Vec<Batch>, batch: Batch)
    ensures
        batches_view(final(done)@) == put_batch(batches_view(old(done)@), batch@),
{
    let mut place: usize = done.len();
    let ghost before = batches_view(done@);
    while place > 0 && !same_text(&done[place - 1].id, &batch.id) && !is_before(
        &done[place - 1].id,
        &batch.id,
    )
        invariant
            place <= done.len(),
            *done == *old(done),
            before == batches_view(done@),
            forall|k: int|
                place <= k < done.len() ==> (#[trigger] before[k]).0 != batch@.0 && !comes_before(
                    before[k].0,
                    batch@.0,
                ),
        decreases place,
    {
        place = place - 1;
    }
    if place > 0 && same_text(&done[place - 1].id, &batch.id) {
        proof {
            lemma_put_batch(before, batch@, place as int);
        }
        done[place - 1] = batch;
        assert(batches_view(done@) =~= before.update(place - 1, batch@));
    } else {
        proof {
            lemma_put_batch(before, batch@, place as int);
        }
        done.insert(place, batch);
        assert(batches_view(done@) =~= before.insert(place as int, batch@));
    }
}

/// Where the batches from `place` on have other names that do not come
/// before that of `batch`, the batch takes the place of the batch before
/// `place` where that has its name, and is put in at `place` where not.
pub proof fn lemma_put_batch(done: Seq<BatchModel>, batch: BatchModel, place: int)
    requires
        0 <= place <= done.len(),
        forall|k: int|
            place <= k < done.len() ==> (#[trigger] done[k]).0 != batch.0 && !comes_before(
                done[k].0,
                batch.0,
            ),
        place > 0 ==> done[place - 1].0 == batch.0 || comes_before(done[place - 1].0, batch.0),
    ensures
        put_batch(done, batch) == (if place > 0 && done[place - 1].0 == batch.0 {
            done.update(place - 1, batch)
        } else {
            done.insert(place, batch)
        }),
    decreases done.len(),
{
    if done.len() == 0 {
        assert(done.insert(place, batch) =~= seq![batch]);
    } else if place == done.len() {
        if done.last().0 == batch.0 {
            assert(done.update(place - 1, batch) =~= done.drop_last().push(batch));
        } else {
            assert(done.insert(place, batch) =~= done.push(batch));
        }
    } else {
        let shorter = done.drop_last();
        assert(forall|k: int| 0 <= k < shorter.len() ==> shorter[k] == done[k]);
        lemma_put_batch(shorter, batch, place);
        if place > 0 && done[place - 1].0 == batch.0 {
            assert(done.update(place - 1, batch) =~= shorter.update(place - 1, batch).push(
                done.last(),
            ));
        } else {
            assert(done.insert(place, batch) =~= shorter.insert(place, batch).push(done.last()));
        }
    }
}

/// A text that cannot be read up to one of its lines cannot be read
/// further.
pub proof fn lemma_failure_lasts(lines: Seq<Seq<char>>, n: nat, m: nat)
    requires
        n <= m,
        after_lines(lines, n) is None,
    ensures
        after_lines(lines, m) is None,
    decreases m,
{
    if n < m {
        lemma_failure_lasts(lines, n, (m - 1) as nat);
    }
}

/// The batches of `text` that have ended, in the order of their names.
pub fn read_batches(text: &str) -> (batches: Option<Vec<Batch>>)
    ensures
        match batches {
            Some(b) => batches_of(text@) == Some(batches_view(b@)),
            None => batches_of(text@) is None,
        },
{
    let chars: Vec<char> = chars_of(text);
    let mut lines: Vec<Vec<char>> = split(&chars, '\n');
    proof {
        crate::text::lemma_split_fields(text@, '\n');
    }
    if lines[lines.len() - 1].len() == 0 {
        lines.pop();
    }
    let ghost all: Seq<Seq<char>> = lines_of(text@);
    assert(names_view(lines@) =~= all);
    let mut done: Vec<Batch> = Vec::new();
    let mut open: Option<Batch> = None;
    let mut i: usize = 0;
    assert(batches_view(done@) =~= Seq::<BatchModel>::empty());
    while i < lines.len()
        invariant
            i <= lines.len(),
            names_view(lines@) == all,
            all == lines_of(text@),
            after_lines(all, i as nat) == Some(
                Progress {
                    done: batches_view(done@),
                    open: match open {
                        Some(batch) => Some(batch@),
                        None => None,
                    },
                },
            ),
        decreases lines.len() - i,
    {
        proof {
            assert(all[i as int] == lines[i as int]@);
            if i >= 1 {
                assert(all[i - 1] == lines[i - 1]@);
            }
        }
        let stated: Vec<char> = trim(&lines[i]);
        if has_char(&stated, '[') {
            let begun: Batch = match open {
                Some(batch) => batch,
                None => {
                    if i == 0 {
                        proof {
                            lemma_failure_lasts(all, 1, all.len());
                        }
                        return None;
                    }
                    let heading: Vec<char> = trim(&lines[i - 1]);
                    match read_quoted_name(&heading) {
                        Some(id) => {
                            let batch = Batch { id, links: Vec::new() };
                            assert(links_view(batch.links@) =~= Seq::<Link>::empty());
                            batch
                        },
                        None => {
                            proof {
                                lemma_failure_lasts(all, (i + 1) as nat, all.len());
                            }
                            return None;
                        },
                    }
                },
            };
            let mut links: Vec<(Vec<char>, Vec<char>)> = match read_links(&stated) {
                Some(l) => l,
                None => {
                    proof {
                        lemma_failure_lasts(all, (i + 1) as nat, all.len());
                    }
                    return None;
                },
            };
            let Batch { id, links: mut gathered } = begun;
            let ghost first = links_view(gathered@);
            let ghost second = links_view(links@);
            gathered.append(&mut links);
            assert(links_view(gathered@) =~= first + second);
            open = Some(Batch { id, links: gathered });
        } else {
            match open {
                Some(batch) => {
                    store_batch(&mut done, batch);
                    open = None;
                },
                None => {},
            }
        }
        i = i + 1;
    }
    Some(done)
}

/// The report on the batches of `text`: the numbers of their provinces in
/// the order of the names of the batches, with a comma between each two.
/// Nothing where the text cannot be read.
pub fn province_report(text: &str) -> (report: Option<String>)
    ensures
        match report {
            Some(r) => batches_of(text@) is Some && r@ == report_of(batches_of(text@)->Some_0),
            None => batches_of(text@) is None,
        },
{
    let batches: Vec<Batch> = match read_batches(text) {
        Some(b) => b,
        None => {
            return None;
        },
    };
    let ghost all = batches_view(batches@);
    let mut report = String::new();
    let mut i: usize = 0;
    assert(all.take(0) =~= Seq::<BatchModel>::empty());
    while i < batches.len()
        invariant
            i <= batches.len(),
            all == batches_view(batches@),
            report@ == report_of(all.take(i as int)),
        decreases batches.len() - i,
    {
        let count: usize = count_batch(&batches[i].links);
        proof {
            let next = all.take(i + 1);
            assert(next.drop_last() =~= all.take(i as int));
            assert(next.last() == batches[i as int]@);
            assert(next[0] == all[0]);
        }
        if i > 0 {
            push_comma(&mut report);
        }
        push_decimal(&mut report, count as u64);
        i = i + 1;
    }
    assert(all.take(i as int) =~= all);
    Some(report)
}

} // verus!
