use mid::patch::PatchError;
use mid::parse;

const BASH_PATCH_LINES: &[&str] = &[
    "Description: fix a crash in the completion code",
    "Origin: upstream, bash43-004",
    "",
    "--- a/lib/readline/display.c",
    "+++ b/lib/readline/display.c",
    "@@ -1637,7 +1637,7 @@ update_line (old, new, current_line, omax, nmax, inv_botlin)",
    " \t  /* If we are changing the number of invisible characters in a line, and",
    " \t     the spot of first difference is before the end of the invisible chars,",
    " \t     lendiff needs to be adjusted. */",
    "-\t  if (current_line == 0 && !_rl_horizontal_scroll_mode &&",
    "+\t  if (current_line == 0 && /* !_rl_horizontal_scroll_mode && */",
    " \t      current_invis_chars != visible_wrap_offset)",
    " \t    {",
    " \t      if (current_invis_chars > visible_wrap_offset)",
    "--- a/patchlevel.h",
    "+++ b/patchlevel.h",
    "@@ -25,6 +25,6 @@",
    "    regexp `^#define[ \t]*PATCHLEVEL', since that's what support/mkversion.sh",
    "    looks for to find the patch level (for the sccs version string). */",
    " ",
    "-#define PATCHLEVEL 3",
    "+#define PATCHLEVEL 4",
    " ",
    " #endif /* _PATCHLEVEL_H_ */",
];

fn bash_patch() -> Vec<u8> {
    let mut blob = BASH_PATCH_LINES.join("\n").into_bytes();
    blob.push(b'\n');
    blob
}

#[test]
fn simple_parse() {
    parse(&bash_patch()).unwrap();
}

#[test]
fn simple_parse_contents() {
    let p = parse(&bash_patch()).unwrap();
    assert_eq!(
        p.header().as_slice(),
        &b"Description: fix a crash in the completion code\nOrigin: upstream, bash43-004\n\n"[..]
    );
    assert!(!p.have_index_markers());
    let files = p.file_changes();
    // a hunk runs to a blank line or a line starting with `@`, so the
    // second file's header lines belong to the first file's hunk
    assert_eq!(files.len(), 1);
    assert_eq!(files[0].path, "lib/readline/display.c");
    assert_eq!(files[0].hunks.len(), 2);
    assert_eq!(files[0].hunks[0].lines.len(), 10);
    assert_eq!(files[0].hunks[0].lines[8].as_slice(), &b"--- a/patchlevel.h"[..]);
    assert_eq!(files[0].hunks[1].spec.as_slice(), &b"-25,6 +25,6 @@"[..]);
    assert_eq!(files[0].hunks[1].lines.len(), 7);
}

#[test]
fn one_file_one_hunk() {
    let blob = b"some header text\n--- a/foo\n+++ b/foo\n@@ -1,2 +1,2 @@\n-old line\n+new line\n";
    let p = parse(blob).unwrap();
    assert_eq!(p.header().as_slice(), &b"some header text\n"[..]);
    let files = p.file_changes();
    assert_eq!(files.len(), 1);
    assert_eq!(files[0].path, "foo");
    assert_eq!(files[0].hunks.len(), 1);
    let hunk = &files[0].hunks[0];
    assert_eq!(hunk.spec.as_slice(), &b"-1,2 +1,2 @@"[..]);
    assert_eq!(hunk.lines, vec![b"-old line".to_vec(), b"+new line".to_vec()]);
}

#[test]
fn mismatched_paths_fail() {
    let blob = b"--- a/foo\n+++ b/bar\n@@ -1 +1 @@\n-x\n+y\n";
    assert_eq!(parse(blob).err(), Some(PatchError::PathsNotEqual));
}

#[test]
fn unprefixed_paths_fail() {
    let blob = b"--- foo\n+++ b/foo\n";
    assert_eq!(parse(blob).err(), Some(PatchError::PathsNotPrefixed));
}

#[test]
fn index_without_trailer_fails() {
    let blob = b"Index: foo\n==========\n--- a/foo\n+++ b/foo\n";
    assert_eq!(parse(blob).err(), Some(PatchError::BadIndexTrailer));
    let blob = b"Index: foo";
    assert_eq!(parse(blob).err(), Some(PatchError::MissingIndexTrailer));
}

#[test]
fn index_framed_file() {
    let mut blob = b"Index: foo\n".to_vec();
    blob.extend(std::iter::repeat(b'=').take(67));
    blob.extend_from_slice(b"\n--- a/foo\n+++ b/foo\n@@ -1 +1 @@\n-a\n+b\n");
    let p = parse(&blob).unwrap();
    assert!(p.have_index_markers());
    assert_eq!(p.header().len(), 0);
    assert_eq!(p.file_changes()[0].path, "foo");
    assert_eq!(p.file_changes()[0].hunks[0].lines.len(), 2);
}

#[test]
fn index_trailer_then_end_fails() {
    let mut blob = b"Index: foo\n".to_vec();
    blob.extend(std::iter::repeat(b'=').take(67));
    assert_eq!(parse(&blob).err(), Some(PatchError::MissingRemovalLine));
}

#[test]
fn no_patch_fails() {
    assert_eq!(parse(b"just some text\nand more\n").err(), Some(PatchError::NoPatch));
    assert_eq!(parse(b"").err(), Some(PatchError::NoPatch));
}

#[test]
fn truncated_file_header_fails() {
    assert_eq!(parse(b"--- a/foo").err(), Some(PatchError::MissingAdditionLine));
    assert_eq!(parse(b"--- a/foo\n--- b/foo\n").err(), Some(PatchError::BadAdditionLine));
}

#[test]
fn bad_hunk_marker_fails() {
    let blob = b"--- a/foo\n+++ b/foo\n@ -1 +1 @\n-a\n";
    assert_eq!(parse(blob).err(), Some(PatchError::BadHunkMarker));
}

#[test]
fn second_file_must_start_with_removal_line() {
    let blob = b"--- a/foo\n+++ b/foo\n@@ -1 +1 @@\n-a\n\n\n";
    assert_eq!(parse(blob).err(), Some(PatchError::BadRemovalLine));
}

#[test]
fn path_must_be_text() {
    let blob = b"--- a/\xff\n+++ b/\xff\n";
    assert_eq!(parse(blob).err(), Some(PatchError::PathNotText));
}

#[test]
fn repeated_path_keeps_last_hunks() {
    let blob = b"--- a/foo\n+++ b/foo\n@@ one @@\n-a\n\n--- a/bar\n+++ b/bar\n\n--- a/foo\n+++ b/foo\n@@ two @@\n+b\n";
    let p = parse(blob).unwrap();
    let files = p.file_changes();
    assert_eq!(files.len(), 2);
    assert_eq!(files[0].path, "foo");
    assert_eq!(files[0].hunks[0].spec.as_slice(), &b"two @@"[..]);
    assert_eq!(files[1].path, "bar");
    assert_eq!(files[1].hunks.len(), 0);
}

#[test]
fn several_hunks_in_order() {
    let blob = b"--- a/x\n+++ b/x\n@@ 1 @@\n a\n@@ 2 @@\n b\n c\n";
    let p = parse(blob).unwrap();
    let hunks = &p.file_changes()[0].hunks;
    assert_eq!(hunks.len(), 2);
    assert_eq!(hunks[0].lines, vec![b" a".to_vec()]);
    assert_eq!(hunks[1].lines, vec![b" b".to_vec(), b" c".to_vec()]);
}
