use vstd::prelude::*;
use crate::strings::{has_line, line_at, matches_at, contains_line};
use crate::fs_model::FsState;

verus! {

/// The text without its final newline, if it ends in one.
pub open spec fn base_text(c: Seq<char>) -> Seq<char> {
    if c.len() > 0 && c.last() == '\n' {
        c.drop_last()
    } else {
        c
    }
}

/// What stands between the existing text and an appended block: a blank
/// line where the text does not already end in one.
pub open spec fn separator(t: Seq<char>) -> Seq<char> {
    if t.len() > 0 && t.last() != '\n' {
        seq!['\n', '\n']
    } else {
        seq!['\n']
    }
}

/// The text after annotating `c` with a grading block: unchanged when
/// some whole line of it already reads exactly the note line, else the
/// placeholder line and the note line appended after a separating blank
/// line, with a single trailing newline.
pub open spec fn annotated(c: Seq<char>, placeholder: Seq<char>, note: Seq<char>) -> Seq<char> {
    if has_line(c, note) {
        c
    } else {
        base_text(c) + separator(base_text(c)) + placeholder + seq!['\n'] + note + seq!['\n']
    }
}

/// Annotating is idempotent: annotating an annotated text changes
/// nothing, because the note line then occurs in it.
pub proof fn lemma_annotate_idempotent(c: Seq<char>, placeholder: Seq<char>, note: Seq<char>)
    ensures
        annotated(annotated(c, placeholder, note), placeholder, note) == annotated(
            c,
            placeholder,
            note,
        ),
{
    if !has_line(c, note) {
        let pre = base_text(c) + separator(base_text(c)) + placeholder + seq!['\n'];
        let r = annotated(c, placeholder, note);
        assert(r =~= pre + note + seq!['\n']);
        assert(r.subrange(pre.len() as int, pre.len() as int + note.len() as int) =~= note);
        assert(matches_at(r, note, pre.len() as int));
        assert(r[pre.len() - 1] == '\n');
        assert(pre.len() + note.len() < r.len() && r[pre.len() as int + note.len() as int]
            == '\n');
        assert(line_at(r, note, pre.len() as int));
        assert(has_line(r, note));
    }
}

/// Computes the annotated text.
pub fn annotate_text(c: &str, placeholder: &str, note: &str) -> (r: String)
    requires
        note@.len() > 0,
    ensures
        r@ == annotated(c@, placeholder@, note@),
{
    if contains_line(c, note) {
        return c.to_owned();
    }
    let clen = c.unicode_len();
    let mut r: String;
    let mut tlen: usize;
    if clen > 0 && c.get_char(clen - 1) == '\n' {
        r = c.substring_char(0, clen - 1).to_owned();
        tlen = clen - 1;
        proof {
            assert(c@.subrange(0, clen as int - 1) =~= base_text(c@));
        }
    } else {
        r = c.to_owned();
        tlen = clen;
    }
    proof {
        assert(r@ == base_text(c@));
    }
    let ends_open = tlen > 0 && r.as_str().get_char(tlen - 1) != '\n';
    if ends_open {
        r.append("\n\n");
    } else {
        r.append("\n");
    }
    r.append(placeholder);
    r.append("\n");
    r.append(note);
    r.append("\n");
    proof {
        reveal_strlit("\n");
        reveal_strlit("\n\n");
        assert("\n"@ =~= seq!['\n']);
        assert("\n\n"@ =~= seq!['\n', '\n']);
        assert(r@ =~= annotated(c@, placeholder@, note@));
    }
    r
}

/// Appends the grading block to the file at `file`, if that file
/// exists and does not already hold the note line. A missing file is
/// left missing: annotation never creates a file.
pub fn append_to_file(fs: &mut FsState, file: &str, placeholder: &str, note: &str)
    requires
        old(fs).wf(),
        note@.len() > 0,
    ensures
        final(fs).wf(),
        final(fs).dir_set() == old(fs).dir_set(),
        !old(fs).file_map().contains_key(file@) ==> final(fs).file_map() == old(fs).file_map(),
        old(fs).file_map().contains_key(file@) ==> final(fs).file_map() == old(
            fs,
        ).file_map().insert(
            file@,
            annotated(old(fs).file_map()[file@], placeholder@, note@),
        ),
{
    match fs.read_file(file) {
        None => {},
        Some(c) => {
            let r = annotate_text(c.as_str(), placeholder, note);
            fs.write_file(file, r.as_str());
        },
    }
}

} // verus!
