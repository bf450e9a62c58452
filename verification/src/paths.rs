//! Paths as texts whose components are separated by slashes.
use crate::error::{DataError, ErrorKind};
use crate::text::{is_lower_match, matches_lower};
use vstd::prelude::*;

verus! {

/// Where images are written to.
pub const OUTPUT_DIR: &'static str = "tmp/images";

/// `path` without what its last component is followed by: slashes and single
/// dots between or after them.
pub open spec fn stripped(path: Seq<char>) -> Seq<char>
    decreases path.len(),
{
    if path.len() > 0 && path.last() == '/' {
        stripped(path.drop_last())
    } else if path.len() > 1 && path.last() == '.' && path[path.len() - 2] == '/' {
        stripped(path.drop_last())
    } else {
        path
    }
}

/// What follows the last `mark` in `text`, or all of it where there is none.
pub open spec fn after_last(text: Seq<char>, mark: char) -> Seq<char>
    decreases text.len(),
{
    if text.len() == 0 || text.last() == mark {
        Seq::empty()
    } else {
        after_last(text.drop_last(), mark).push(text.last())
    }
}

/// The final component of `path`, unless it is a root, the current directory or
/// a parent directory.
pub open spec fn final_component(path: Seq<char>) -> Option<Seq<char>> {
    let part = after_last(stripped(path), '/');
    if part == ""@ || part == "."@ || part == ".."@ {
        None
    } else {
        Some(part)
    }
}

/// What follows the last dot of a file name, unless that dot is its first
/// character or there is none.
pub open spec fn name_extension(name: Seq<char>) -> Option<Seq<char>> {
    let extension = after_last(name, '.');
    if extension.len() + 1 < name.len() {
        Some(extension)
    } else {
        None
    }
}

/// The extension of the final component of `path`.
pub open spec fn path_extension(path: Seq<char>) -> Option<Seq<char>> {
    match final_component(path) {
        Some(name) => name_extension(name),
        None => None,
    }
}

/// The extension of `path` is `expected` but for the case of ASCII letters.
pub open spec fn extension_is(path: Seq<char>, expected: Seq<char>) -> bool {
    path_extension(path) matches Some(extension) && matches_lower(extension, expected)
}

/// `path` has the extension of an image.
pub open spec fn is_image_path(path: Seq<char>) -> bool {
    extension_is(path, "png"@) || extension_is(path, "jpg"@) || extension_is(path, "jpeg"@)
}

/// The path of `name` inside `directory`, which is `name` itself where that starts
/// at the root.
pub open spec fn path_in(directory: Seq<char>, name: Seq<char>) -> Seq<char> {
    if name.len() > 0 && name[0] == '/' {
        name
    } else if directory.len() == 0 || directory.last() == '/' {
        directory + name
    } else {
        directory + "/"@ + name
    }
}

/// Where the part of `text[..end]` after its last `mark` starts.
fn start_of_last(text: &str, end: usize, mark: char) -> (start: usize)
    requires
        end <= text@.len(),
    ensures
        start <= end,
        text@.subrange(start as int, end as int) == after_last(text@.take(end as int), mark),
{
    let mut start: usize = end;
    let ghost whole = after_last(text@.take(end as int), mark);
    proof {
        assert(text@.subrange(end as int, end as int) =~= Seq::<char>::empty());
        assert(whole =~= whole + Seq::<char>::empty());
    }
    while start > 0
        invariant_except_break
            start <= end,
            end <= text@.len(),
            whole == after_last(text@.take(start as int), mark) + text@.subrange(
                start as int,
                end as int,
            ),
        ensures
            start <= end,
            whole == text@.subrange(start as int, end as int),
        decreases start,
    {
        let ghost head = text@.take(start as int);
        let c: char = text.get_char(start - 1);
        if c == mark {
            proof {
                assert(after_last(head, mark) =~= Seq::<char>::empty());
                assert(whole =~= text@.subrange(start as int, end as int));
            }
            break;
        }
        proof {
            assert(head.drop_last() =~= text@.take(start - 1));
            assert(head.last() == c);
            assert(whole =~= after_last(text@.take(start - 1), mark) + text@.subrange(
                start - 1,
                end as int,
            ));
        }
        start = start - 1;
        proof {
            if start == 0 {
                assert(after_last(text@.take(0), mark) =~= Seq::<char>::empty());
                assert(whole =~= text@.subrange(0, end as int));
            }
        }
    }
    start
}

/// How much of `path` is left when what follows its last component is taken away.
fn stripped_len(path: &str) -> (len: usize)
    ensures
        len <= path@.len(),
        stripped(path@) == path@.take(len as int),
{
    let mut len: usize = path.unicode_len();
    proof {
        assert(path@.take(len as int) =~= path@);
    }
    while len > 0 && (path.get_char(len - 1) == '/' || (len > 1 && path.get_char(len - 1) == '.'
        && path.get_char(len - 2) == '/'))
        invariant
            len <= path@.len(),
            stripped(path@) == stripped(path@.take(len as int)),
        decreases len,
    {
        proof {
            assert(path@.take(len as int).drop_last() =~= path@.take(len - 1));
        }
        len = len - 1;
    }
    len
}

/// The final component of a path.
pub fn file_name(path: &str) -> (name: Option<String>)
    ensures
        match name {
            Some(name) => final_component(path@) == Some(name@),
            None => final_component(path@) is None,
        },
{
    let end: usize = stripped_len(path);
    let start: usize = start_of_last(path, end, '/');
    let part: &str = path.substring_char(start, end);
    let len: usize = end - start;
    proof {
        reveal_strlit("");
        reveal_strlit(".");
        reveal_strlit("..");
        assert(part@.len() == 0 ==> part@ =~= ""@);
    }
    if len == 0 {
        return None;
    }
    if len == 1 && part.get_char(0) == '.' {
        proof {
            assert(part@ =~= "."@);
        }
        return None;
    }
    if len == 2 && part.get_char(0) == '.' && part.get_char(1) == '.' {
        proof {
            assert(part@ =~= ".."@);
        }
        return None;
    }
    proof {
        assert(""@.len() == 0 && "."@.len() == 1 && ".."@.len() == 2);
        assert("."@[0] == '.' && ".."@[0] == '.' && ".."@[1] == '.');
    }
    Some(part.to_owned())
}

/// The extension of a path.
pub fn extension(path: &str) -> (extension: Option<String>)
    ensures
        match extension {
            Some(extension) => path_extension(path@) == Some(extension@),
            None => path_extension(path@) is None,
        },
{
    match file_name(path) {
        Some(name) => {
            let text: &str = name.as_str();
            let end: usize = text.unicode_len();
            let start: usize = start_of_last(text, end, '.');
            proof {
                assert(text@.take(end as int) =~= text@);
            }
            if start > 1 {
                Some(text.substring_char(start, end).to_owned())
            } else {
                None
            }
        },
        None => None,
    }
}

/// Tests whether the extension of `path` is `expected`, whatever its case.
pub fn has_extension(path: &str, expected: &str) -> (result: bool)
    ensures
        result == extension_is(path@, expected@),
{
    match extension(path) {
        Some(extension) => is_lower_match(extension.as_str(), expected),
        None => false,
    }
}

/// Tests whether `path` has the extension of an image.
pub fn is_image_file(path: &str) -> (result: bool)
    ensures
        result == is_image_path(path@),
{
    has_extension(path, "png") || has_extension(path, "jpg") || has_extension(path, "jpeg")
}

/// The path of `name` inside `directory`, which is `name` itself where that starts
/// at the root.
pub fn join_path(directory: &str, name: &str) -> (path: String)
    ensures
        path@ == path_in(directory@, name@),
{
    if name.unicode_len() > 0 && name.get_char(0) == '/' {
        return name.to_owned();
    }
    let mut path: String = directory.to_owned();
    let len: usize = directory.unicode_len();
    if len > 0 && directory.get_char(len - 1) != '/' {
        path.append("/");
    }
    path.append(name);
    path
}

/// Where the image at `input_path` is written to.
pub fn output_path_for(input_path: &str) -> (result: Result<String, DataError>)
    ensures
        match final_component(input_path@) {
            Some(name) => result matches Ok(path) && path@ == path_in(OUTPUT_DIR@, name) && path@
                == path_in("tmp/images"@, name),
            None => result matches Err(error) && error@ == (
                ErrorKind::InvalidInput,
                "input path has no file name: "@ + input_path@,
            ),
        },
{
    match file_name(input_path) {
        Some(name) => Ok(join_path(OUTPUT_DIR, name.as_str())),
        None => {
            let mut message: String = "input path has no file name: ".to_owned();
            message.append(input_path);
            Err(DataError { kind: ErrorKind::InvalidInput, message })
        },
    }
}

/// A plain name that is put behind a directory is the final component of the
/// path.
pub proof fn law_join_keeps_the_name(directory: Seq<char>, name: Seq<char>)
    requires
        !name.contains('/'),
        name != ""@,
        name != "."@,
        name != ".."@,
    ensures
        final_component(path_in(directory, name)) == Some(name),
{
    reveal_strlit("");
    reveal_strlit(".");
    reveal_strlit("/");
    let path = path_in(directory, name);
    assert(name.len() > 0) by {
        if name.len() == 0 {
            assert(name =~= ""@);
        }
    }
    assert(path.last() == name.last());
    assert(name.contains(name.last()));
    let head = (path.len() - name.len()) as int;
    assert(name.contains(name[0]));
    assert(head == 0 || path[head - 1] == '/');
    assert(path.skip(head) =~= name);
    if path.len() > 1 && path.last() == '.' && path[path.len() - 2] == '/' {
        if name.len() > 1 {
            assert(name[name.len() - 2] == path[path.len() - 2]);
            assert(name.contains(name[name.len() - 2]));
        } else {
            assert(name =~= "."@);
        }
    }
    assert(stripped(path) == path);
    lemma_after_last_of_tail(path.take(head), name, '/');
    assert(path =~= path.take(head) + name);
}

proof fn lemma_after_last_of_tail(head: Seq<char>, tail: Seq<char>, mark: char)
    requires
        head.len() == 0 || head.last() == mark,
        !tail.contains(mark),
    ensures
        after_last(head + tail, mark) == tail,
    decreases tail.len(),
{
    let text = head + tail;
    if tail.len() == 0 {
        assert(text =~= head);
        assert(after_last(text, mark) =~= tail);
    } else {
        assert(text.last() == tail.last());
        assert(tail.contains(tail.last()));
        assert(text.drop_last() =~= head + tail.drop_last());
        assert forall|c: char| tail.drop_last().contains(c) implies tail.contains(c) by {
            let i = choose|i: int| 0 <= i < tail.drop_last().len() && tail.drop_last()[i] == c;
            assert(tail[i] == c);
        }
        lemma_after_last_of_tail(head, tail.drop_last(), mark);
        assert(after_last(text, mark) =~= tail);
    }
}

/// A path splits at its last mark: what follows holds no mark, and what precedes it is
/// nothing or ends in one.
pub proof fn law_the_last_part_has_no_mark(text: Seq<char>, mark: char)
    ensures
        ({
            let part = after_last(text, mark);
            let start = text.len() - part.len();
            &&& 0 <= start
            &&& text.skip(start) == part
            &&& !part.contains(mark)
            &&& start == 0 || text[start - 1] == mark
        }),
    decreases text.len(),
{
    let part = after_last(text, mark);
    if text.len() == 0 || text.last() == mark {
        assert(text.skip(text.len() as int) =~= part);
    } else {
        law_the_last_part_has_no_mark(text.drop_last(), mark);
        let less = after_last(text.drop_last(), mark);
        let start = text.len() - part.len();
        assert(text.drop_last().skip(start) == less);
        assert(text.skip(start) =~= part) by {
            assert forall|place: int| 0 <= place < part.len() implies text.skip(start)[place]
                == part[place] by {
                if place < less.len() {
                    assert(text.drop_last().skip(start)[place] == less[place]);
                }
            }
        }
        if part.contains(mark) {
            let place = choose|place: int| 0 <= place < part.len() && part[place] == mark;
            assert(less.contains(less[place]));
        }
    }
}

/// What follows the last component does not matter to it: a slash, or a slash and a single
/// dot. A path that ends in a parent directory has no name.
pub proof fn law_trailing_slashes_do_not_matter(path: Seq<char>)
    ensures
        final_component(path.push('/')) == final_component(path),
        final_component(path.push('/').push('.')) == final_component(path),
        final_component(path.push('/').push('.').push('.')) is None,
{
    reveal_strlit("..");
    let once = path.push('/');
    let dotted = once.push('.');
    let parent = dotted.push('.');
    assert(once.drop_last() =~= path);
    assert(dotted.drop_last() =~= once);
    assert(stripped(once) == stripped(path));
    assert(stripped(dotted) == stripped(once));
    assert(stripped(parent) == parent);
    assert(parent =~= once + ".."@);
    assert(!(".."@).contains('/'));
    lemma_after_last_of_tail(once, ".."@, '/');
}

/// A name has what follows its last dot as its extension, unless nothing precedes that dot.
pub proof fn law_the_extension_follows_the_last_dot(stem: Seq<char>, extension: Seq<char>)
    requires
        !extension.contains('.'),
    ensures
        stem.len() > 0 ==> name_extension(stem.push('.') + extension) == Some(extension),
        name_extension(seq!['.'] + extension) is None,
        name_extension(extension) is None,
{
    lemma_after_last_of_tail(stem.push('.'), extension, '.');
    lemma_after_last_of_tail(seq!['.'], extension, '.');
    lemma_after_last_of_tail(Seq::<char>::empty(), extension, '.');
    assert(Seq::<char>::empty() + extension =~= extension);
}

/// A file is an image exactly if its extension is one of the three, whatever the case of
/// its letters, and wherever the file lies.
pub proof fn law_images_are_known_by_their_extension(
    directory: Seq<char>,
    stem: Seq<char>,
    extension: Seq<char>,
)
    requires
        stem.len() > 0,
        !stem.contains('/'),
        !extension.contains('/'),
        !extension.contains('.'),
        extension.len() > 0,
    ensures
        ({
            let path = path_in(directory, stem.push('.') + extension);
            let plain = extension.map_values(|c: char| crate::text::lower(c));
            &&& is_image_path(path) <==> plain == "png"@ || plain == "jpg"@ || plain == "jpeg"@
            &&& extension_is(path, "png"@) <==> plain == "png"@
        }),
{
    let name = stem.push('.') + extension;
    reveal_strlit("");
    reveal_strlit(".");
    reveal_strlit("..");
    assert(name[stem.len() as int] == '.');
    assert(name.last() == extension.last());
    assert(extension.contains(extension.last()));
    assert(name.len() > 2);
    if name.contains('/') {
        let place = choose|place: int| 0 <= place < name.len() && name[place] == '/';
        if place < stem.len() {
            assert(stem.contains(stem[place]));
        } else if place > stem.len() {
            assert(extension.contains(extension[place - stem.len() - 1]));
        }
    }
    law_join_keeps_the_name(directory, name);
    law_the_extension_follows_the_last_dot(stem, extension);
}

/// A name that starts at the root is a path by itself; another is put behind the directory,
/// with one slash between them.
pub proof fn law_names_are_put_behind_the_directory(directory: Seq<char>, name: Seq<char>)
    ensures
        path_in(directory, seq!['/'] + name) == seq!['/'] + name,
        name.len() > 0 && name[0] != '/' ==> path_in(directory.push('/'), name) == directory.push(
            '/',
        ) + name,
        directory.len() > 0 && directory.last() != '/' && name.len() > 0 && name[0] != '/'
            ==> path_in(directory, name) == path_in(directory.push('/'), name),
        path_in(Seq::<char>::empty(), name) == name,
{
    reveal_strlit("/");
    assert(directory + "/"@ =~= directory.push('/'));
    assert(Seq::<char>::empty() + name =~= name);
}

} // verus!
