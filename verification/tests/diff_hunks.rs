use std::ops::Range;

use jj_lib::diff::compare::CompareBytes;
use jj_lib::diff::find_lcs;
use jj_lib::diff::find_line_ranges;
use jj_lib::diff::source::DiffSource;
use jj_lib::diff::unchanged::collect_unchanged_words;
use jj_lib::diff::CompareBytesExactly;
use jj_lib::diff::CompareBytesIgnoreAllWhitespace;
use jj_lib::diff::CompareBytesIgnoreWhitespaceAmount;
use jj_lib::diff::Diff;
use jj_lib::diff::DiffHunk;
use jj_lib::diff::DiffHunkKind;
use jj_lib::diff::DiffHunkRange;
use jj_lib::diff::WordComparator;

fn as_bytes<'a>(inputs: &[&'a str]) -> Vec<&'a [u8]> {
    inputs.iter().map(|input| input.as_bytes()).collect()
}

fn diff<'a, const N: usize>(inputs: [&'a str; N]) -> Vec<DiffHunk<'a>> {
    jj_lib::diff::diff(&as_bytes(&inputs))
}

fn for_tokenizer<'a, const N: usize, C: CompareBytes>(
    inputs: [&'a str; N],
    tokenizer: fn(&[u8]) -> Vec<Range<usize>>,
    compare: C,
) -> Diff<'a> {
    Diff::for_tokenizer(&as_bytes(&inputs), tokenizer, compare)
}

fn by_word<'a, const N: usize>(inputs: [&'a str; N]) -> Diff<'a> {
    Diff::by_word(&as_bytes(&inputs))
}

fn matching<'a>(contents: impl AsRef<[&'a str]>) -> DiffHunk<'a> {
    DiffHunk::matching(as_bytes(contents.as_ref()))
}

fn different<'a>(contents: impl AsRef<[&'a str]>) -> DiffHunk<'a> {
    DiffHunk::different(as_bytes(contents.as_ref()))
}

fn unchanged_ranges(
    (left_text, left_ranges): (&[u8], &[Range<usize>]),
    (right_text, right_ranges): (&[u8], &[Range<usize>]),
) -> Vec<(Range<usize>, Range<usize>)> {
    let comp = WordComparator::new(CompareBytesExactly);
    let left = DiffSource::new(left_text, left_ranges, &comp);
    let right = DiffSource::new(right_text, right_ranges, &comp);
    let mut positions = Vec::new();
    collect_unchanged_words(&mut positions, &left.local(), &right.local(), &comp);
    positions
        .into_iter()
        .map(|(left_pos, right_pos)| (left.range_at(left_pos), right.range_at(right_pos)))
        .collect()
}

#[test]
fn test_find_lcs_empty() {
    let empty: Vec<(usize, usize)> = vec![];
    assert_eq!(find_lcs(&[]), empty);
}

#[test]
fn test_find_lcs_single_element() {
    assert_eq!(find_lcs(&[0]), vec![(0, 0)]);
}

#[test]
fn test_find_lcs_in_order() {
    assert_eq!(find_lcs(&[0, 1, 2]), vec![(0, 0), (1, 1), (2, 2)]);
}

#[test]
fn test_find_lcs_reverse_order() {
    assert_eq!(find_lcs(&[2, 1, 0]), vec![(2, 0)]);
}

#[test]
fn test_find_lcs_two_swapped() {
    assert_eq!(
        find_lcs(&[0, 1, 4, 3, 2, 5, 6]),
        vec![(0, 0), (1, 1), (2, 4), (5, 5), (6, 6)]
    );
}

#[test]
fn test_find_lcs_element_moved_earlier() {
    assert_eq!(
        find_lcs(&[0, 1, 4, 2, 3, 5, 6]),
        vec![(0, 0), (1, 1), (2, 3), (3, 4), (5, 5), (6, 6)]
    );
}

#[test]
fn test_find_lcs_element_moved_later() {
    assert_eq!(
        find_lcs(&[0, 1, 3, 4, 2, 5, 6]),
        vec![(0, 0), (1, 1), (3, 2), (4, 3), (5, 5), (6, 6)]
    );
}

#[test]
fn test_find_lcs_interleaved_longest_chains() {
    assert_eq!(
        find_lcs(&[0, 4, 2, 9, 6, 5, 1, 3, 7, 8]),
        vec![(0, 0), (1, 6), (3, 7), (7, 8), (8, 9)]
    );
}





#[test]
fn test_unchanged_ranges_insert_in_middle() {
    assert_eq!(
        unchanged_ranges(
            (&b"a b b c"[..], &[0..1, 2..3, 4..5, 6..7]),
            (&b"a b X b c"[..], &[0..1, 2..3, 4..5, 6..7, 8..9]),
        ),
        vec![(0..1, 0..1), (2..3, 2..3), (4..5, 6..7), (6..7, 8..9)]
    );
}

#[test]
fn test_unchanged_ranges_non_unique_removed() {
    // We used to consider the first two "a" in the first input to match the two
    // "a"s in the second input. We no longer do.
    assert_eq!(
        unchanged_ranges(
            (&b"a a a a"[..], &[0..1, 2..3, 4..5, 6..7]),
            (&b"a b a c"[..], &[0..1, 2..3, 4..5, 6..7]),
        ),
        vec![(0..1, 0..1)]
    );
    assert_eq!(
        unchanged_ranges(
            (&b"a a a a"[..], &[0..1, 2..3, 4..5, 6..7]),
            (&b"b a c a"[..], &[0..1, 2..3, 4..5, 6..7]),
        ),
        vec![(6..7, 6..7)]
    );
    assert_eq!(
        unchanged_ranges(
            (&b"a a a a"[..], &[0..1, 2..3, 4..5, 6..7]),
            (&b"b a a c"[..], &[0..1, 2..3, 4..5, 6..7]),
        ),
        vec![]
    );
    assert_eq!(
        unchanged_ranges(
            (&b"a a a a"[..], &[0..1, 2..3, 4..5, 6..7]),
            (&b"a b c a"[..], &[0..1, 2..3, 4..5, 6..7]),
        ),
        vec![(0..1, 0..1), (6..7, 6..7)]
    );
}

#[test]
fn test_unchanged_ranges_non_unique_added() {
    // We used to consider the first two "a" in the first input to match the two
    // "a"s in the second input. We no longer do.
    assert_eq!(
        unchanged_ranges(
            (&b"a b a c"[..], &[0..1, 2..3, 4..5, 6..7]),
            (&b"a a a a"[..], &[0..1, 2..3, 4..5, 6..7]),
        ),
        vec![(0..1, 0..1)]
    );
    assert_eq!(
        unchanged_ranges(
            (&b"b a c a"[..], &[0..1, 2..3, 4..5, 6..7]),
            (&b"a a a a"[..], &[0..1, 2..3, 4..5, 6..7]),
        ),
        vec![(6..7, 6..7)]
    );
    assert_eq!(
        unchanged_ranges(
            (&b"b a a c"[..], &[0..1, 2..3, 4..5, 6..7]),
            (&b"a a a a"[..], &[0..1, 2..3, 4..5, 6..7]),
        ),
        vec![]
    );
    assert_eq!(
        unchanged_ranges(
            (&b"a b c a"[..], &[0..1, 2..3, 4..5, 6..7]),
            (&b"a a a a"[..], &[0..1, 2..3, 4..5, 6..7]),
        ),
        vec![(0..1, 0..1), (6..7, 6..7)]
    );
}

#[test]
fn test_unchanged_ranges_recursion_needed() {
    // "|" matches first, then "b" matches within the left/right range.
    assert_eq!(
        unchanged_ranges(
            (&b"a b | b"[..], &[0..1, 2..3, 4..5, 6..7]),
            (&b"b c d |"[..], &[0..1, 2..3, 4..5, 6..7]),
        ),
        vec![(2..3, 0..1), (4..5, 6..7)]
    );
    assert_eq!(
        unchanged_ranges(
            (&b"| b c d"[..], &[0..1, 2..3, 4..5, 6..7]),
            (&b"b | a b"[..], &[0..1, 2..3, 4..5, 6..7]),
        ),
        vec![(0..1, 2..3), (2..3, 6..7)]
    );
    // "|" matches first, then the middle range is trimmed.
    assert_eq!(
        unchanged_ranges(
            (&b"| b c |"[..], &[0..1, 2..3, 4..5, 6..7]),
            (&b"| b b |"[..], &[0..1, 2..3, 4..5, 6..7]),
        ),
        vec![(0..1, 0..1), (2..3, 2..3), (6..7, 6..7)]
    );
    assert_eq!(
        unchanged_ranges(
            (&b"| c c |"[..], &[0..1, 2..3, 4..5, 6..7]),
            (&b"| b c |"[..], &[0..1, 2..3, 4..5, 6..7]),
        ),
        vec![(0..1, 0..1), (4..5, 4..5), (6..7, 6..7)]
    );
    // "|" matches first, then "a", then "b".
    assert_eq!(
        unchanged_ranges(
            (&b"a b c | a"[..], &[0..1, 2..3, 4..5, 6..7, 8..9]),
            (&b"b a b |"[..], &[0..1, 2..3, 4..5, 6..7]),
        ),
        vec![(0..1, 2..3), (2..3, 4..5), (6..7, 6..7)]
    );
    assert_eq!(
        unchanged_ranges(
            (&b"| b a b"[..], &[0..1, 2..3, 4..5, 6..7]),
            (&b"a | a b c"[..], &[0..1, 2..3, 4..5, 6..7, 8..9]),
        ),
        vec![(0..1, 2..3), (4..5, 4..5), (6..7, 6..7)]
    );
}

#[test]
fn test_diff_single_input() {
    assert_eq!(diff(["abc"]), vec![matching(["abc"])]);
}

#[test]
fn test_diff_some_empty_inputs() {
    // All empty
    assert_eq!(diff([""]), vec![]);
    assert_eq!(diff(["", ""]), vec![]);
    assert_eq!(diff(["", "", ""]), vec![]);

    // One empty
    assert_eq!(diff(["a b", ""]), vec![different(["a b", ""])]);
    assert_eq!(diff(["", "a b"]), vec![different(["", "a b"])]);

    // One empty, two match
    assert_eq!(
        diff(["a b", "", "a b"]),
        vec![different(["a b", "", "a b"])]
    );
    assert_eq!(
        diff(["", "a b", "a b"]),
        vec![different(["", "a b", "a b"])]
    );

    // Two empty, one differs
    assert_eq!(
        diff(["a b", "", ""]),
        vec![different(["a b", "", ""])]
    );
    assert_eq!(
        diff(["", "a b", ""]),
        vec![different(["", "a b", ""])]
    );
}

#[test]
fn test_diff_two_inputs_one_different() {
    assert_eq!(
        diff(["a b c", "a X c"]),
        vec![
            matching(["a "].repeat(2)),
            different(["b", "X"]),
            matching([" c"].repeat(2)),
        ]
    );
}

#[test]
fn test_diff_multiple_inputs_one_different() {
    assert_eq!(
        diff(["a b c", "a X c", "a b c"]),
        vec![
            matching(["a "].repeat(3)),
            different(["b", "X", "b"]),
            matching([" c"].repeat(3)),
        ]
    );
}

#[test]
fn test_diff_multiple_inputs_all_different() {
    assert_eq!(
        diff(["a b c", "a X c", "a c X"]),
        vec![
            matching(["a "].repeat(3)),
            different(["b ", "X ", ""]),
            matching(["c"].repeat(3)),
            different(["", "", " X"]),
        ]
    );
}

#[test]
fn test_diff_for_tokenizer_compacted() {
    // Tests that unchanged regions are compacted when using for_tokenizer()
    let diff = for_tokenizer(
        ["a\nb\nc\nd\ne\nf\ng", "a\nb\nc\nX\ne\nf\ng"],
        find_line_ranges,
        CompareBytesExactly,
    );
    assert_eq!(
        diff.hunks().collect_vec(),
        vec![
            matching(["a\nb\nc\n"].repeat(2)),
            different(["d\n", "X\n"]),
            matching(["e\nf\ng"].repeat(2)),
        ]
    );
}

#[test]
fn test_diff_nothing_in_common() {
    assert_eq!(
        diff(["aaa", "bb"]),
        vec![different(["aaa", "bb"])]
    );
}

#[test]
fn test_diff_insert_in_middle() {
    assert_eq!(
        diff(["a z", "a S z"]),
        vec![
            matching(["a "].repeat(2)),
            different(["", "S "]),
            matching(["z"].repeat(2)),
        ]
    );
}

#[test]
fn test_diff_no_unique_middle_flips() {
    assert_eq!(
        diff(["a R R S S z", "a S S R R z"]),
        vec![
            matching(["a "].repeat(2)),
            different(["R R ", ""]),
            matching(["S S "].repeat(2)),
            different(["", "R R "]),
            matching(["z"].repeat(2))
        ],
    );
}

#[test]
fn test_diff_recursion_needed() {
    assert_eq!(
        diff([
            "a q x q y q z q b q y q x q c",
            "a r r x q y z q b y q x r r c",
        ]),
        vec![
            matching(["a "].repeat(2)),
            different(["q", "r"]),
            matching([" "].repeat(2)),
            different(["", "r "]),
            matching(["x q y "].repeat(2)),
            different(["q ", ""]),
            matching(["z q b "].repeat(2)),
            different(["q ", ""]),
            matching(["y q x "].repeat(2)),
            different(["q", "r"]),
            matching([" "].repeat(2)),
            different(["", "r "]),
            matching(["c"].repeat(2)),
        ]
    );
}

#[test]
fn test_diff_ignore_all_whitespace() {
    fn diff(inputs: [&str; 2]) -> Vec<DiffHunk<'_>> {
        let diff =
            for_tokenizer(inputs, find_line_ranges, CompareBytesIgnoreAllWhitespace);
        diff.hunks().collect_vec()
    }

    assert_eq!(diff(["", "\n"]), vec![different(["", "\n"])]);
    assert_eq!(
        diff(["a\n", " a\r\n"]),
        vec![matching(["a\n", " a\r\n"])]
    );
    assert_eq!(
        diff(["a\n", " a\nb"]),
        vec![
            matching(["a\n", " a\n"]),
            different(["", "b"]),
        ]
    );

    // No LCS matches, so trim leading/trailing common lines
    assert_eq!(
        diff(["a\nc\n", " a\n a\n"]),
        vec![
            matching(["a\n", " a\n"]),
            different(["c\n", " a\n"]),
        ]
    );
    assert_eq!(
        diff(["c\na\n", " a\n a\n"]),
        vec![
            different(["c\n", " a\n"]),
            matching(["a\n", " a\n"]),
        ]
    );
}

#[test]
fn test_diff_ignore_whitespace_amount() {
    fn diff(inputs: [&str; 2]) -> Vec<DiffHunk<'_>> {
        let diff =
            for_tokenizer(inputs, find_line_ranges, CompareBytesIgnoreWhitespaceAmount);
        diff.hunks().collect_vec()
    }

    assert_eq!(diff(["", "\n"]), vec![different(["", "\n"])]);
    // whitespace at line end is ignored
    assert_eq!(
        diff(["a\n", "a\r\n"]),
        vec![matching(["a\n", "a\r\n"])]
    );
    // but whitespace at line start isn't
    assert_eq!(
        diff(["a\n", " a\n"]),
        vec![different(["a\n", " a\n"])]
    );
    assert_eq!(
        diff(["a\n", "a \nb"]),
        vec![
            matching(["a\n", "a \n"]),
            different(["", "b"]),
        ]
    );
}

#[test]
fn test_diff_hunk_iterator() {
    let diff = by_word(["a b c", "a XX c", "a b "]);
    assert_eq!(
        diff.hunks().collect_vec(),
        vec![
            matching(["a "].repeat(3)),
            different(["b", "XX", "b"]),
            matching([" "].repeat(3)),
            different(["c", "c", ""]),
        ]
    );
    assert_eq!(
        diff.hunk_ranges().collect_vec(),
        vec![
            DiffHunkRange {
                kind: DiffHunkKind::Matching,
                ranges: vec![0..2, 0..2, 0..2],
            },
            DiffHunkRange {
                kind: DiffHunkKind::Different,
                ranges: vec![2..3, 2..4, 2..3],
            },
            DiffHunkRange {
                kind: DiffHunkKind::Matching,
                ranges: vec![3..4, 4..5, 3..4],
            },
            DiffHunkRange {
                kind: DiffHunkKind::Different,
                ranges: vec![4..5, 5..6, 4..4],
            },
        ]
    );
}

#[test]
fn test_diff_real_case_write_fmt() {
    // This is from src/ui.rs in commit f44d246e3f88 in this repo. It highlights the
    // need for recursion into the range at the end: after splitting at "Arguments"
    // and "formatter", the region at the end has the unique words "write_fmt"
    // and "fmt", but we forgot to recurse into that region, so we ended up
    // saying that "write_fmt(fmt).unwrap()" was replaced by b"write_fmt(fmt)".
        assert_eq!(
        diff([
            "    pub fn write_fmt(&mut self, fmt: fmt::Arguments<\'_>) {\n        self.styler().write_fmt(fmt).unwrap()\n",
            "    pub fn write_fmt(&mut self, fmt: fmt::Arguments<\'_>) -> io::Result<()> {\n        self.styler().write_fmt(fmt)\n"
        ]),
        vec![
            matching(["    pub fn write_fmt(&mut self, fmt: fmt::Arguments<\'_>) "].repeat(2)),
            different(["", "-> io::Result<()> "]),
            matching(["{\n        self.styler().write_fmt(fmt)"].repeat(2)),
            different([".unwrap()", ""]),
            matching(["\n"].repeat(2))
        ]
    );
}

#[test]
fn test_diff_real_case_gitgit_read_tree_c() {
    // This is the diff from commit e497ea2a9b in the git.git repo
        assert_eq!(
        diff([
            r##"/*
 * GIT - The information manager from hell
 *
 * Copyright (C) Linus Torvalds, 2005
 */
#include "#cache.h"

static int unpack(unsigned char *sha1)
{
	void *buffer;
	unsigned long size;
	char type[20];

	buffer = read_sha1_file(sha1, type, &size);
	if (!buffer)
		usage("unable to read sha1 file");
	if (strcmp(type, "tree"))
		usage("expected a 'tree' node");
	while (size) {
		int len = strlen(buffer)+1;
		unsigned char *sha1 = buffer + len;
		char *path = strchr(buffer, ' ')+1;
		unsigned int mode;
		if (size < len + 20 || sscanf(buffer, "%o", &mode) != 1)
			usage("corrupt 'tree' file");
		buffer = sha1 + 20;
		size -= len + 20;
		printf("%o %s (%s)\n", mode, path, sha1_to_hex(sha1));
	}
	return 0;
}

int main(int argc, char **argv)
{
	int fd;
	unsigned char sha1[20];

	if (argc != 2)
		usage("read-tree <key>");
	if (get_sha1_hex(argv[1], sha1) < 0)
		usage("read-tree <key>");
	sha1_file_directory = getenv(DB_ENVIRONMENT);
	if (!sha1_file_directory)
		sha1_file_directory = DEFAULT_DB_ENVIRONMENT;
	if (unpack(sha1) < 0)
		usage("unpack failed");
	return 0;
}
"##,
            r##"/*
 * GIT - The information manager from hell
 *
 * Copyright (C) Linus Torvalds, 2005
 */
#include "#cache.h"

static void create_directories(const char *path)
{
	int len = strlen(path);
	char *buf = malloc(len + 1);
	const char *slash = path;

	while ((slash = strchr(slash+1, '/')) != NULL) {
		len = slash - path;
		memcpy(buf, path, len);
		buf[len] = 0;
		mkdir(buf, 0700);
	}
}

static int create_file(const char *path)
{
	int fd = open(path, O_WRONLY | O_TRUNC | O_CREAT, 0600);
	if (fd < 0) {
		if (errno == ENOENT) {
			create_directories(path);
			fd = open(path, O_WRONLY | O_TRUNC | O_CREAT, 0600);
		}
	}
	return fd;
}

static int unpack(unsigned char *sha1)
{
	void *buffer;
	unsigned long size;
	char type[20];

	buffer = read_sha1_file(sha1, type, &size);
	if (!buffer)
		usage("unable to read sha1 file");
	if (strcmp(type, "tree"))
		usage("expected a 'tree' node");
	while (size) {
		int len = strlen(buffer)+1;
		unsigned char *sha1 = buffer + len;
		char *path = strchr(buffer, ' ')+1;
		char *data;
		unsigned long filesize;
		unsigned int mode;
		int fd;

		if (size < len + 20 || sscanf(buffer, "%o", &mode) != 1)
			usage("corrupt 'tree' file");
		buffer = sha1 + 20;
		size -= len + 20;
		data = read_sha1_file(sha1, type, &filesize);
		if (!data || strcmp(type, "blob"))
			usage("tree file refers to bad file data");
		fd = create_file(path);
		if (fd < 0)
			usage("unable to create file");
		if (write(fd, data, filesize) != filesize)
			usage("unable to write file");
		fchmod(fd, mode);
		close(fd);
		free(data);
	}
	return 0;
}

int main(int argc, char **argv)
{
	int fd;
	unsigned char sha1[20];

	if (argc != 2)
		usage("read-tree <key>");
	if (get_sha1_hex(argv[1], sha1) < 0)
		usage("read-tree <key>");
	sha1_file_directory = getenv(DB_ENVIRONMENT);
	if (!sha1_file_directory)
		sha1_file_directory = DEFAULT_DB_ENVIRONMENT;
	if (unpack(sha1) < 0)
		usage("unpack failed");
	return 0;
}
"##,
        ]),
        vec![
           matching(["/*\n * GIT - The information manager from hell\n *\n * Copyright (C) Linus Torvalds, 2005\n */\n#include \"#cache.h\"\n\n"].repeat(2)),
           different(["", "static void create_directories(const char *path)\n{\n\tint len = strlen(path);\n\tchar *buf = malloc(len + 1);\n\tconst char *slash = path;\n\n\twhile ((slash = strchr(slash+1, \'/\')) != NULL) {\n\t\tlen = slash - path;\n\t\tmemcpy(buf, path, len);\n\t\tbuf[len] = 0;\n\t\tmkdir(buf, 0700);\n\t}\n}\n\nstatic int create_file(const char *path)\n{\n\tint fd = open(path, O_WRONLY | O_TRUNC | O_CREAT, 0600);\n\tif (fd < 0) {\n\t\tif (errno == ENOENT) {\n\t\t\tcreate_directories(path);\n\t\t\tfd = open(path, O_WRONLY | O_TRUNC | O_CREAT, 0600);\n\t\t}\n\t}\n\treturn fd;\n}\n\n"]),
           matching(["static int unpack(unsigned char *sha1)\n{\n\tvoid *buffer;\n\tunsigned long size;\n\tchar type[20];\n\n\tbuffer = read_sha1_file(sha1, type, &size);\n\tif (!buffer)\n\t\tusage(\"unable to read sha1 file\");\n\tif (strcmp(type, \"tree\"))\n\t\tusage(\"expected a \'tree\' node\");\n\twhile (size) {\n\t\tint len = strlen(buffer)+1;\n\t\tunsigned char *sha1 = buffer + len;\n\t\tchar *path = strchr(buffer, \' \')+1;\n"].repeat(2)),
           different(["", "\t\tchar *data;\n\t\tunsigned long filesize;\n"]),
           matching(["\t\tunsigned int mode;\n"].repeat(2)),
           different(["", "\t\tint fd;\n\n"]),
           matching(["\t\tif (size < len + 20 || sscanf(buffer, \"%o\", &mode) != 1)\n\t\t\tusage(\"corrupt \'tree\' file\");\n\t\tbuffer = sha1 + 20;\n\t\tsize -= len + 20;\n\t\t"].repeat(2)),
           different(["printf(\"%o %s (%s)\\n\", mode, path,", "data ="]),
           matching([" "].repeat(2)),
           different(["sha1_to_hex", "read_sha1_file"]),
           matching(["(sha1"].repeat(2)),
           different([")", ", type, &filesize);\n\t\tif (!data || strcmp(type, \"blob\"))\n\t\t\tusage(\"tree file refers to bad file data\");\n\t\tfd = create_file(path);\n\t\tif (fd < 0)\n\t\t\tusage(\"unable to create file\");\n\t\tif (write(fd, data, filesize) != filesize)\n\t\t\tusage(\"unable to write file\");\n\t\tfchmod(fd, mode);\n\t\tclose(fd);\n\t\tfree(data"]),
           matching([");\n\t}\n\treturn 0;\n}\n\nint main(int argc, char **argv)\n{\n\tint fd;\n\tunsigned char sha1[20];\n\n\tif (argc != 2)\n\t\tusage(\"read-tree <key>\");\n\tif (get_sha1_hex(argv[1], sha1) < 0)\n\t\tusage(\"read-tree <key>\");\n\tsha1_file_directory = getenv(DB_ENVIRONMENT);\n\tif (!sha1_file_directory)\n\t\tsha1_file_directory = DEFAULT_DB_ENVIRONMENT;\n\tif (unpack(sha1) < 0)\n\t\tusage(\"unpack failed\");\n\treturn 0;\n}\n"].repeat(2)),
        ]
    );
}

fn matching_ranges(inputs: &[&[u8]]) -> Vec<Vec<Range<usize>>> {
    let diff = Diff::for_tokenizer(inputs, find_line_ranges, CompareBytesExactly);
    let mut found = Vec::new();
    for hunk in diff.hunk_ranges().collect_vec() {
        if hunk.kind == DiffHunkKind::Matching {
            found.push(hunk.ranges);
        }
    }
    found
}

fn lies_within(inner: &Range<usize>, outer: &Range<usize>) -> bool {
    outer.start <= inner.start && inner.end <= outer.end
}

#[test]
fn test_diff_of_three_lies_within_each_diff_of_two() {
    let base: &[u8] = b"a\nb\nc\nd\n";
    let first: &[u8] = b"a\nX\nc\nd\n";
    let second: &[u8] = b"a\nb\nc\nY\n";
    let all = matching_ranges(&[base, first, second]);
    assert_eq!(all, vec![vec![0..2, 0..2, 0..2], vec![4..6, 4..6, 4..6]]);
    let with_first = matching_ranges(&[base, first]);
    assert_eq!(with_first, vec![vec![0..2, 0..2], vec![4..8, 4..8]]);
    let with_second = matching_ranges(&[base, second]);
    assert_eq!(with_second, vec![vec![0..6, 0..6]]);
    for hunk in &all {
        assert!(with_first
            .iter()
            .any(|pair| lies_within(&hunk[0], &pair[0]) && lies_within(&hunk[1], &pair[1])));
        assert!(with_second
            .iter()
            .any(|pair| lies_within(&hunk[0], &pair[0]) && lies_within(&hunk[2], &pair[1])));
    }
}

#[test]
fn test_diff_without_an_input_leaves_no_less_unchanged() {
    let base: &[u8] = b"one\ntwo\nthree\nfour\n";
    let first: &[u8] = b"one\n2\nthree\nfour\n";
    let second: &[u8] = b"one\ntwo\nthree\n4\n";
    let third: &[u8] = b"1\ntwo\nthree\nfour\n";
    let all = matching_ranges(&[base, first, second, third]);
    assert_eq!(all, vec![vec![8..14, 6..12, 8..14, 6..12]]);
    let fewer = matching_ranges(&[base, first, third]);
    assert_eq!(fewer, vec![vec![8..19, 6..17, 6..17]]);
    for at in 0..base.len() {
        let in_all = all.iter().any(|hunk| hunk[0].contains(&at));
        let in_fewer = fewer.iter().any(|hunk| hunk[0].contains(&at));
        assert!(!in_all || in_fewer);
    }
}

#[test]
fn test_diff_is_the_same_at_every_call() {
    let inputs: [&[u8]; 3] = [b"a b c d e", b"a X c d e", b"a b c Y e"];
    let first = Diff::by_word(&inputs).hunk_ranges().collect_vec();
    for _ in 0..8 {
        assert_eq!(Diff::by_word(&inputs).hunk_ranges().collect_vec(), first);
    }
}
