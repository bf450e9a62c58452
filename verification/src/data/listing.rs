//! What a directory holds, and which of it are images.
use crate::error::{DataError, ErrorKind};
use crate::paths::{is_image_file, is_image_path};
use crate::text::{
    before, decimal, is_before, joined, lemma_before_is_total, lemma_before_is_transitive,
    push_decimal, texts,
};
use vstd::prelude::*;

verus! {

/// How many file names a message lists.
pub const DISPLAY_LIMIT: usize = 8;

/// A file in a directory.
#[derive(Debug, Clone, PartialEq, Eq)]
pub struct DirectoryEntry {
    pub name: String,
    /// Width and height, where it is an image that could be read.
    pub dimensions: Option<(u32, u32)>,
}

/// The contents of a [`DirectoryEntry`].
pub struct EntryView {
    pub name: Seq<char>,
    pub dimensions: Option<(u32, u32)>,
}

impl View for DirectoryEntry {
    type V = EntryView;

    open spec fn view(&self) -> EntryView {
        EntryView { name: self.name@, dimensions: self.dimensions }
    }
}

/// A directory and what was found in it.
#[derive(Debug, Clone, PartialEq, Eq)]
pub struct Directory {
    pub path: String,
    pub entries: Vec<DirectoryEntry>,
}

/// The contents of a list of entries.
pub open spec fn entry_views(entries: Seq<DirectoryEntry>) -> Seq<EntryView> {
    entries.map_values(|entry: DirectoryEntry| entry@)
}

/// The names of a list of entries.
pub open spec fn entry_names(entries: Seq<EntryView>) -> Seq<Seq<char>> {
    entries.map_values(|entry: EntryView| entry.name)
}

/// Every name comes before those that follow it.
pub open spec fn is_strictly_sorted(names: Seq<Seq<char>>) -> bool {
    forall|i: int, j: int| 0 <= i < j < names.len() ==> before(#[trigger] names[i], #[trigger] names[j])
}

/// Where `name` belongs in a sorted list: behind the last name before it.
pub open spec fn place_of(list: Seq<EntryView>, name: Seq<char>) -> int
    decreases list.len(),
{
    if list.len() == 0 {
        0
    } else if before(list.last().name, name) {
        list.len() as int
    } else {
        place_of(list.drop_last(), name)
    }
}

/// A sorted list with an entry added, which replaces one of the same name.
pub open spec fn with_entry(list: Seq<EntryView>, entry: EntryView) -> Seq<EntryView> {
    let place = place_of(list, entry.name);
    if place < list.len() && list[place].name == entry.name {
        list.update(place, entry)
    } else {
        list.insert(place, entry)
    }
}

/// The images among the entries, in the order of their names.
pub open spec fn image_list(entries: Seq<EntryView>) -> Seq<EntryView>
    decreases entries.len(),
{
    if entries.len() == 0 {
        Seq::empty()
    } else {
        let rest = image_list(entries.drop_last());
        if is_image_path(entries.last().name) {
            with_entry(rest, entries.last())
        } else {
            rest
        }
    }
}

/// The place of a name splits a sorted list into what comes before the name and
/// what does not.
proof fn lemma_place_splits(list: Seq<EntryView>, name: Seq<char>)
    requires
        is_strictly_sorted(entry_names(list)),
    ensures
        0 <= place_of(list, name) <= list.len(),
        forall|i: int|
            0 <= i < place_of(list, name) ==> before((#[trigger] list[i]).name, name),
        forall|i: int|
            place_of(list, name) <= i < list.len() ==> !before((#[trigger] list[i]).name, name),
    decreases list.len(),
{
    let names = entry_names(list);
    if list.len() > 0 {
        if before(list.last().name, name) {
            assert forall|i: int| 0 <= i < list.len() implies before((#[trigger] list[i]).name, name) by {
                if i < list.len() - 1 {
                    assert(before(names[i], names[list.len() - 1]));
                    lemma_before_is_transitive(list[i].name, list.last().name, name);
                }
            }
        } else {
            let head = list.drop_last();
            assert(entry_names(head) =~= names.drop_last());
            assert(is_strictly_sorted(entry_names(head))) by {
                assert forall|i: int, j: int| 0 <= i < j < head.len() implies before(
                    #[trigger] entry_names(head)[i],
                    #[trigger] entry_names(head)[j],
                ) by {
                    assert(before(names[i], names[j]));
                }
            }
            lemma_place_splits(head, name);
            assert forall|i: int| 0 <= i < place_of(list, name) implies before(
                (#[trigger] list[i]).name,
                name,
            ) by {
                assert(head[i] == list[i]);
            }
            assert forall|i: int| place_of(list, name) <= i < list.len() implies !before(
                (#[trigger] list[i]).name,
                name,
            ) by {
                if i < head.len() {
                    assert(head[i] == list[i]);
                }
            }
        }
    }
}

/// Adding an entry keeps a list sorted.
proof fn lemma_with_entry_is_sorted(list: Seq<EntryView>, entry: EntryView)
    requires
        is_strictly_sorted(entry_names(list)),
    ensures
        is_strictly_sorted(entry_names(with_entry(list, entry))),
{
    lemma_place_splits(list, entry.name);
    let place = place_of(list, entry.name);
    let names = entry_names(list);
    let result = with_entry(list, entry);
    let result_names = entry_names(result);
    assert forall|i: int, j: int| 0 <= i < j < result_names.len() implies before(
        #[trigger] result_names[i],
        #[trigger] result_names[j],
    ) by {
        if place < list.len() && list[place].name == entry.name {
            assert(before(names[i], names[j]));
        } else {
            if j < place {
                assert(before(names[i], names[j]));
            } else if j == place {
                assert(before(list[i].name, entry.name));
            } else {
                let old_j = j - 1;
                assert(!before(list[old_j].name, entry.name));
                if i < place {
                    assert(before(names[i], names[old_j]));
                } else if i > place {
                    assert(before(names[i - 1], names[old_j]));
                } else {
                    lemma_before_is_total(list[old_j].name, entry.name);
                    if list[old_j].name == entry.name {
                        if old_j > place {
                            assert(before(names[place], names[old_j]));
                            assert(!before(list[place].name, entry.name));
                        }
                    }
                }
            }
        }
    }
}

/// The images of a directory stand in strict order of their names.
pub proof fn law_image_list_is_sorted(entries: Seq<EntryView>)
    ensures
        is_strictly_sorted(entry_names(image_list(entries))),
    decreases entries.len(),
{
    if entries.len() > 0 {
        law_image_list_is_sorted(entries.drop_last());
        if is_image_path(entries.last().name) {
            lemma_with_entry_is_sorted(image_list(entries.drop_last()), entries.last());
        }
    }
}

proof fn lemma_with_entry_members(list: Seq<EntryView>, entry: EntryView, name: Seq<char>)
    requires
        is_strictly_sorted(entry_names(list)),
    ensures
        entry_names(with_entry(list, entry)).contains(name) <==> name == entry.name || entry_names(
            list,
        ).contains(name),
{
    lemma_place_splits(list, entry.name);
    let place = place_of(list, entry.name);
    let result = with_entry(list, entry);
    let names = entry_names(list);
    let result_names = entry_names(result);
    assert(result_names[place] == entry.name);
    if names.contains(name) {
        let i = choose|i: int| 0 <= i < names.len() && names[i] == name;
        if result.len() == list.len() || i < place {
            assert(i != place ==> result_names[i] == name);
        } else {
            assert(result_names[i + 1] == name);
        }
    }
    if result_names.contains(name) && name != entry.name {
        let i = choose|i: int| 0 <= i < result_names.len() && result_names[i] == name;
        if result.len() == list.len() || i < place {
            assert(names[i] == name);
        } else {
            assert(names[i - 1] == name);
        }
    }
}

/// A name is listed exactly if the directory holds an image of that name.
pub proof fn law_image_list_is_complete(entries: Seq<EntryView>, name: Seq<char>)
    ensures
        entry_names(image_list(entries)).contains(name) <==> is_image_path(name) && entry_names(
            entries,
        ).contains(name),
    decreases entries.len(),
{
    let names = entry_names(entries);
    if entries.len() > 0 {
        let head = entries.drop_last();
        law_image_list_is_complete(head, name);
        law_image_list_is_sorted(head);
        assert(entry_names(head) =~= names.drop_last());
        assert(names.contains(name) <==> entry_names(head).contains(name) || name
            == entries.last().name) by {
            if names.contains(name) {
                let i = choose|i: int| 0 <= i < names.len() && names[i] == name;
                if i < head.len() {
                    assert(entry_names(head)[i] == name);
                }
            }
            if entry_names(head).contains(name) {
                let i = choose|i: int|
                    0 <= i < entry_names(head).len() && entry_names(head)[i] == name;
                assert(names[i] == name);
            }
            assert(names[entries.len() - 1] == entries.last().name);
        }
        if is_image_path(entries.last().name) {
            lemma_with_entry_members(image_list(head), entries.last(), name);
        }
    }
}

/// A copy of an entry.
fn copy_entry(entry: &DirectoryEntry) -> (copy: DirectoryEntry)
    ensures
        copy@ == entry@,
{
    DirectoryEntry { name: entry.name.clone(), dimensions: entry.dimensions }
}

/// The images among the entries of a directory, in the order of their names.
pub fn images_by_filename(entries: &Vec<DirectoryEntry>) -> (images: Vec<DirectoryEntry>)
    ensures
        entry_views(images@) == image_list(entry_views(entries@)),
{
    let mut images: Vec<DirectoryEntry> = Vec::new();
    let mut index: usize = 0;
    let ghost views = entry_views(entries@);
    proof {
        assert(entry_views(images@) =~= image_list(views.take(0)));
    }
    while index < entries.len()
        invariant
            index <= entries@.len(),
            views == entry_views(entries@),
            entry_views(images@) == image_list(views.take(index as int)),
        decreases entries@.len() - index,
    {
        proof {
            assert(views.take(index + 1).drop_last() =~= views.take(index as int));
            assert(views.take(index + 1).last() == entries@[index as int]@);
        }
        if is_image_file(entries[index].name.as_str()) {
            proof {
                law_image_list_is_sorted(views.take(index as int));
            }
            add_entry(&mut images, copy_entry(&entries[index]));
        }
        index = index + 1;
    }
    proof {
        assert(views.take(entries@.len() as int) =~= views);
    }
    images
}

fn add_entry(list: &mut Vec<DirectoryEntry>, entry: DirectoryEntry)
    requires
        is_strictly_sorted(entry_names(entry_views(old(list)@))),
    ensures
        entry_views(final(list)@) == with_entry(entry_views(old(list)@), entry@),
{
    let ghost views = entry_views(list@);
    let mut place: usize = list.len();
    proof {
        assert(views.take(list@.len() as int) =~= views);
    }
    while place > 0 && !is_before(list[place - 1].name.as_str(), entry.name.as_str())
        invariant
            place <= list@.len(),
            views == entry_views(list@),
            place_of(views, entry.name@) == place_of(views.take(place as int), entry.name@),
        decreases place,
    {
        proof {
            assert(views.take(place as int).last() == list@[place - 1]@);
            assert(views.take(place as int).drop_last() =~= views.take(place - 1));
        }
        place = place - 1;
    }
    proof {
        if place > 0 {
            assert(views.take(place as int).last() == list@[place - 1]@);
        }
        assert(place_of(views, entry.name@) == place);
    }
    if place < list.len() && list[place].name == entry.name {
        let ghost before_list = list@;
        list.set(place, entry);
        proof {
            assert(entry_views(list@) =~= entry_views(before_list).update(place as int, entry@));
        }
    } else {
        let ghost before_list = list@;
        list.insert(place, entry);
        proof {
            assert(entry_views(list@) =~= entry_views(before_list).insert(place as int, entry@));
        }
    }
}

/// A list of file names as a message shows it: the first few, and how many there
/// are where they are not all shown.
pub open spec fn summary(names: Seq<Seq<char>>) -> Seq<char> {
    if names.len() > DISPLAY_LIMIT {
        joined(names.take(DISPLAY_LIMIT as int), ", "@) + ", ... ("@ + decimal(names.len())
            + " total)"@
    } else {
        joined(names, ", "@)
    }
}

/// A list of file names as a message shows it.
pub fn summarize_filenames(file_names: &Vec<String>) -> (text: String)
    ensures
        text@ == summary(texts(file_names@)),
{
    let mut text: String = String::new();
    let mut index: usize = 0;
    let ghost names = texts(file_names@);
    while index < file_names.len() && index < DISPLAY_LIMIT
        invariant
            index <= file_names@.len(),
            index <= DISPLAY_LIMIT,
            names == texts(file_names@),
            text@ == joined(names.take(index as int), ", "@),
        decreases file_names@.len() - index,
    {
        proof {
            assert(names.take(index + 1).drop_last() =~= names.take(index as int));
            assert(names.take(index + 1).last() == file_names@[index as int]@);
        }
        if index > 0 {
            text.append(", ");
        }
        text.append(file_names[index].as_str());
        proof {
            if index == 0 {
                assert(text@ =~= names.take(1)[0]);
            }
        }
        index = index + 1;
    }
    if file_names.len() > DISPLAY_LIMIT {
        text.append(", ... (");
        push_decimal(&mut text, file_names.len());
        text.append(" total)");
    } else {
        proof {
            assert(names.take(index as int) =~= names);
        }
    }
    text
}

/// The names of one list that another does not hold, in their order.
pub open spec fn names_missing(names: Seq<Seq<char>>, others: Seq<Seq<char>>) -> Seq<Seq<char>> {
    names.filter(|name: Seq<char>| !others.contains(name))
}

/// Why the images of a directory do not match those of the base directory, if
/// they do not.
pub open spec fn filenames_error(
    base: Seq<Seq<char>>,
    scale: Seq<Seq<char>>,
    scale_dir: Seq<char>,
) -> Option<(ErrorKind, Seq<char>)> {
    let missing = names_missing(base, scale);
    let extra = names_missing(scale, base);
    if missing.len() == 0 && extra.len() == 0 {
        None
    } else {
        Some(
            (
                ErrorKind::InvalidData,
                "dataset filenames in "@ + scale_dir
                    + " do not match the base directory: missing ["@ + summary(missing)
                    + "], extra ["@ + summary(extra) + "]"@,
            ),
        )
    }
}

fn holds_name(list: &Vec<DirectoryEntry>, name: &String) -> (held: bool)
    ensures
        held == entry_names(entry_views(list@)).contains(name@),
{
    let ghost names = entry_names(entry_views(list@));
    let mut index: usize = 0;
    while index < list.len()
        invariant
            index <= list@.len(),
            names == entry_names(entry_views(list@)),
            forall|i: int| 0 <= i < index ==> #[trigger] names[i] != name@,
        decreases list@.len() - index,
    {
        if list[index].name == *name {
            proof {
                assert(names[index as int] == name@);
            }
            return true;
        }
        index = index + 1;
    }
    false
}

fn missing_names(list: &Vec<DirectoryEntry>, others: &Vec<DirectoryEntry>) -> (missing: Vec<String>)
    ensures
        texts(missing@) == names_missing(
            entry_names(entry_views(list@)),
            entry_names(entry_views(others@)),
        ),
{
    let ghost names = entry_names(entry_views(list@));
    let ghost other_names = entry_names(entry_views(others@));
    let ghost is_missing = |name: Seq<char>| !other_names.contains(name);
    let mut missing: Vec<String> = Vec::new();
    let mut index: usize = 0;
    proof {
        reveal(Seq::filter);
        assert(texts(missing@) =~= names.take(0).filter(is_missing));
    }
    while index < list.len()
        invariant
            index <= list@.len(),
            names == entry_names(entry_views(list@)),
            other_names == entry_names(entry_views(others@)),
            is_missing == (|name: Seq<char>| !other_names.contains(name)),
            texts(missing@) == names.take(index as int).filter(is_missing),
        decreases list@.len() - index,
    {
        proof {
            reveal(Seq::filter);
            assert(names.take(index + 1).drop_last() =~= names.take(index as int));
            assert(names.take(index + 1).last() == list@[index as int].name@);
        }
        if !holds_name(others, &list[index].name) {
            let ghost before_missing = missing@;
            missing.push(list[index].name.clone());
            proof {
                assert(texts(missing@) =~= texts(before_missing).push(list@[index as int].name@));
            }
        }
        index = index + 1;
    }
    proof {
        assert(names.take(list@.len() as int) =~= names);
    }
    missing
}

/// Refuses a directory whose images have other names than those of the base
/// directory.
pub fn validate_matching_filenames(
    base: &Vec<DirectoryEntry>,
    scale: &Vec<DirectoryEntry>,
    scale_dir: &str,
) -> (result: Result<(), DataError>)
    ensures
        match filenames_error(
            entry_names(entry_views(base@)),
            entry_names(entry_views(scale@)),
            scale_dir@,
        ) {
            Some(expected) => result matches Err(error) && error@ == expected,
            None => result is Ok,
        },
{
    let missing: Vec<String> = missing_names(base, scale);
    let extra: Vec<String> = missing_names(scale, base);
    proof {
        assert(texts(missing@).len() == missing@.len());
        assert(texts(extra@).len() == extra@.len());
    }
    if missing.len() == 0 && extra.len() == 0 {
        return Ok(());
    }
    let mut message: String = "dataset filenames in ".to_owned();
    message.append(scale_dir);
    message.append(" do not match the base directory: missing [");
    message.append(summarize_filenames(&missing).as_str());
    message.append("], extra [");
    message.append(summarize_filenames(&extra).as_str());
    message.append("]");
    Err(DataError { kind: ErrorKind::InvalidData, message })
}

/// Directories are accepted together exactly if their images have the same
/// names, and then the images stand at the same places.
pub proof fn law_matching_filenames_are_equal(
    base: Seq<EntryView>,
    scale: Seq<EntryView>,
    scale_dir: Seq<char>,
)
    ensures
        ({
            let base_names = entry_names(image_list(base));
            let scale_names = entry_names(image_list(scale));
            filenames_error(base_names, scale_names, scale_dir) is None <==> base_names
                == scale_names
        }),
{
    let base_names = entry_names(image_list(base));
    let scale_names = entry_names(image_list(scale));
    law_image_list_is_sorted(base);
    law_image_list_is_sorted(scale);
    lemma_nothing_missing(base_names, scale_names);
    lemma_nothing_missing(scale_names, base_names);
    if filenames_error(base_names, scale_names, scale_dir) is None {
        lemma_sorted_lists_agree(base_names, scale_names);
    }
}

proof fn lemma_nothing_missing(names: Seq<Seq<char>>, others: Seq<Seq<char>>)
    ensures
        names_missing(names, others).len() == 0 <==> forall|name: Seq<char>| #[trigger]
            names.contains(name) ==> others.contains(name),
{
    let is_missing = |name: Seq<char>| !others.contains(name);
    let missing = names.filter(is_missing);
    if missing.len() == 0 {
        assert forall|name: Seq<char>| #[trigger] names.contains(name) implies others.contains(
            name,
        ) by {
            if !others.contains(name) {
                let i = choose|i: int| 0 <= i < names.len() && names[i] == name;
                names.lemma_filter_contains(is_missing, i);
                assert(missing.contains(names[i]));
            }
        }
    } else {
        names.lemma_filter_pred(is_missing, 0);
        assert(missing.contains(missing[0]));
        names.lemma_filter_contains_rev(is_missing, missing[0]);
        assert(names.contains(missing[0]));
    }
}

/// Two sorted lists with the same members are equal.
proof fn lemma_sorted_lists_agree(one: Seq<Seq<char>>, other: Seq<Seq<char>>)
    requires
        is_strictly_sorted(one),
        is_strictly_sorted(other),
        forall|name: Seq<char>| #[trigger] one.contains(name) ==> other.contains(name),
        forall|name: Seq<char>| #[trigger] other.contains(name) ==> one.contains(name),
    ensures
        one == other,
    decreases one.len() + other.len(),
{
    if one.len() == 0 {
        if other.len() > 0 {
            assert(other.contains(other[0]));
        }
        assert(one =~= other);
    } else {
        assert(one.contains(one[0]));
        let i = choose|i: int| 0 <= i < other.len() && other[i] == one[0];
        assert(other.contains(other[0]));
        let j = choose|j: int| 0 <= j < one.len() && one[j] == other[0];
        if i > 0 {
            assert(before(other[0], other[i]));
            lemma_before_is_total(one[0], other[0]);
            if j > 0 {
                assert(before(one[0], one[j]));
            }
        }
        assert(one[0] == other[0]);
        let one_rest = one.drop_first();
        let other_rest = other.drop_first();
        lemma_rest_members(one, other);
        lemma_rest_members(other, one);
        assert(is_strictly_sorted(one_rest)) by {
            assert forall|a: int, b: int| 0 <= a < b < one_rest.len() implies before(
                #[trigger] one_rest[a],
                #[trigger] one_rest[b],
            ) by {
                assert(before(one[a + 1], one[b + 1]));
            }
        }
        assert(is_strictly_sorted(other_rest)) by {
            assert forall|a: int, b: int| 0 <= a < b < other_rest.len() implies before(
                #[trigger] other_rest[a],
                #[trigger] other_rest[b],
            ) by {
                assert(before(other[a + 1], other[b + 1]));
            }
        }
        lemma_sorted_lists_agree(one_rest, other_rest);
        assert(one =~= seq![one[0]] + one_rest);
        assert(other =~= seq![other[0]] + other_rest);
    }
}

proof fn lemma_rest_members(one: Seq<Seq<char>>, other: Seq<Seq<char>>)
    requires
        one.len() > 0,
        other.len() > 0,
        one[0] == other[0],
        is_strictly_sorted(one),
        forall|name: Seq<char>| #[trigger] one.contains(name) ==> other.contains(name),
    ensures
        forall|name: Seq<char>| #[trigger]
            one.drop_first().contains(name) ==> other.drop_first().contains(name),
{
    assert forall|name: Seq<char>| #[trigger] one.drop_first().contains(name) implies other.drop_first().contains(
        name,
    ) by {
        let k = choose|k: int| 0 <= k < one.drop_first().len() && one.drop_first()[k] == name;
        assert(one[k + 1] == name);
        assert(one.contains(name));
        let m = choose|m: int| 0 <= m < other.len() && other[m] == name;
        assert(before(one[0], one[k + 1]));
        lemma_before_is_total(one[0], one[0]);
        assert(m > 0);
        assert(other.drop_first()[m - 1] == name);
    }
}

/// What is listed was found: every listed entry is one of the directory, with its
/// dimensions.
pub proof fn law_listed_entries_were_found(entries: Seq<EntryView>, place: int)
    requires
        0 <= place < image_list(entries).len(),
    ensures
        entries.contains(image_list(entries)[place]),
        is_image_path(image_list(entries)[place].name),
    decreases entries.len(),
{
    let rest = image_list(entries.drop_last());
    let list = image_list(entries);
    let entry = entries.last();
    law_image_list_is_sorted(entries.drop_last());
    let found = if is_image_path(entry.name) {
        let at = place_of(rest, entry.name);
        lemma_place_splits(rest, entry.name);
        if at < rest.len() && rest[at].name == entry.name {
            if place == at {
                -1
            } else {
                place
            }
        } else if place < at {
            place
        } else if place == at {
            -1
        } else {
            place - 1
        }
    } else {
        place
    };
    if found == -1 {
        assert(list[place] == entry);
        assert(entries[entries.len() - 1] == entry);
    } else {
        assert(list[place] == rest[found]);
        law_listed_entries_were_found(entries.drop_last(), found);
        let origin = choose|origin: int|
            0 <= origin < entries.drop_last().len() && entries.drop_last()[origin] == rest[found];
        assert(entries[origin] == rest[found]);
    }
}

/// A message shows up to eight names in full, and of more the first eight and how many there
/// are.
pub proof fn law_summaries_show_eight_names(names: Seq<Seq<char>>)
    ensures
        names.len() <= 8 ==> summary(names) == joined(names, ", "@),
        names.len() > 8 ==> summary(names) == joined(names.take(8), ", "@) + ", ... ("@ + decimal(
            names.len(),
        ) + " total)"@,
{
}

/// What is missing are the names of the one list that the other does not hold.
pub proof fn law_missing_names_are_those_of_one_list(
    names: Seq<Seq<char>>,
    others: Seq<Seq<char>>,
    name: Seq<char>,
)
    ensures
        names_missing(names, others).contains(name) <==> names.contains(name) && !others.contains(
            name,
        ),
{
    let absent = |name: Seq<char>| !others.contains(name);
    let missing = names.filter(absent);
    if missing.contains(name) {
        let place = choose|place: int| 0 <= place < missing.len() && missing[place] == name;
        names.lemma_filter_pred(absent, place);
        names.lemma_filter_contains_rev(absent, name);
    }
    if names.contains(name) && !others.contains(name) {
        let place = choose|place: int| 0 <= place < names.len() && names[place] == name;
        names.lemma_filter_contains(absent, place);
    }
}

} // verus!
