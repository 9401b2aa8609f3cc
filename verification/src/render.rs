use vstd::prelude::*;
use vstd::string::*;
use crate::node::{Tree, TreeNode, count_in, count_among};

verus! {

/// The glyph in front of an entry's name: one form for the last of its
/// siblings, another for those that have a sibling after them.
pub open spec fn connector(is_last: bool) -> Seq<char> {
    if is_last { "└── "@ } else { "├── "@ }
}

/// What an entry adds to the prefix of the entries below it: blanks under a
/// last sibling, a vertical bar and blanks under the others.
pub open spec fn continuation(is_last: bool) -> Seq<char> {
    if is_last { "    "@ } else { "│   "@ }
}

/// The lines of one entry and of everything below it, in pre-order.
pub open spec fn entry_lines(t: Tree, prefix: Seq<char>, is_last: bool) -> Seq<Seq<char>>
    decreases t, 0nat,
{
    seq![prefix + connector(is_last) + t.name] + children_lines(
        t.children,
        t.children.len(),
        prefix + continuation(is_last),
    )
}

/// The lines of the first `n` of the siblings `ts`; the last of `ts` is the
/// one that gets the closing connector.
pub open spec fn children_lines(ts: Seq<Tree>, n: nat, prefix: Seq<char>) -> Seq<Seq<char>>
    decreases ts, n,
{
    if n == 0 || n > ts.len() {
        Seq::empty()
    } else {
        children_lines(ts, (n - 1) as nat, prefix) + entry_lines(
            ts[n - 1],
            prefix,
            n == ts.len(),
        )
    }
}

/// The texts of a list of strings.
pub open spec fn texts(v: Seq<String>) -> Seq<Seq<char>> {
    v.map_values(|s: String| s@)
}

/// Every entry is one line: an entry and what lies below it take as many
/// lines as there are directories and files among them.
pub proof fn lemma_entry_line_count(t: Tree, prefix: Seq<char>, is_last: bool)
    ensures
        entry_lines(t, prefix, is_last).len() == count_in(t, true) + count_in(t, false),
    decreases t, 0nat,
{
    lemma_children_line_count(t.children, t.children.len(), prefix + continuation(is_last));
}

/// The same for the first `n` of a list of siblings.
pub proof fn lemma_children_line_count(ts: Seq<Tree>, n: nat, prefix: Seq<char>)
    ensures
        children_lines(ts, n, prefix).len() == count_among(ts, n, true) + count_among(
            ts,
            n,
            false,
        ),
    decreases ts, n,
{
    if n == 0 || n > ts.len() {
    } else {
        lemma_children_line_count(ts, (n - 1) as nat, prefix);
        lemma_entry_line_count(ts[n - 1], prefix, n == ts.len());
    }
}

/// The lines of a whole tree: the root's name alone, then the entries below
/// it, the first level with a connector and no indentation.
pub open spec fn tree_lines(t: Tree) -> Seq<Seq<char>> {
    seq![t.name] + children_lines(t.children, t.children.len(), Seq::empty())
}

/// The character of a decimal digit.
pub open spec fn digit(d: nat) -> char {
    if d == 0 {
        '0'
    } else if d == 1 {
        '1'
    } else if d == 2 {
        '2'
    } else if d == 3 {
        '3'
    } else if d == 4 {
        '4'
    } else if d == 5 {
        '5'
    } else if d == 6 {
        '6'
    } else if d == 7 {
        '7'
    } else if d == 8 {
        '8'
    } else {
        '9'
    }
}

/// A number written in decimal digits, without a sign or leading zeros.
pub open spec fn decimal(n: nat) -> Seq<char>
    decreases n,
{
    if n < 10 {
        seq![digit(n)]
    } else {
        decimal(n / 10).push(digit(n % 10))
    }
}

/// The line of totals: the words stay the same whatever the numbers are.
pub open spec fn summary_line(dirs: nat, files: nat, directories_only: bool) -> Seq<char> {
    if directories_only {
        decimal(dirs) + " directories"@
    } else {
        decimal(dirs) + " directories, "@ + decimal(files) + " files"@
    }
}

/// What ends the output: an empty line and the line of totals.
pub open spec fn statistics_lines(dirs: nat, files: nat, directories_only: bool) -> Seq<Seq<char>> {
    seq![Seq::<char>::empty(), summary_line(dirs, files, directories_only)]
}

/// The text of one decimal digit.
pub fn digit_text(d: usize) -> (text: &'static str)
    requires
        d < 10,
    ensures
        text@ == seq![digit(d as nat)],
{
    proof {
        reveal_strlit("0");
        reveal_strlit("1");
        reveal_strlit("2");
        reveal_strlit("3");
        reveal_strlit("4");
        reveal_strlit("5");
        reveal_strlit("6");
        reveal_strlit("7");
        reveal_strlit("8");
        reveal_strlit("9");
    }
    let text = if d == 0 {
        "0"
    } else if d == 1 {
        "1"
    } else if d == 2 {
        "2"
    } else if d == 3 {
        "3"
    } else if d == 4 {
        "4"
    } else if d == 5 {
        "5"
    } else if d == 6 {
        "6"
    } else if d == 7 {
        "7"
    } else if d == 8 {
        "8"
    } else {
        "9"
    };
    assert(text@ =~= seq![digit(d as nat)]);
    text
}

/// Writes a number in decimal digits.
pub fn decimal_text(n: usize) -> (text: String)
    ensures
        text@ == decimal(n as nat),
    decreases n,
{
    if n < 10 {
        String::from_str(digit_text(n))
    } else {
        let mut text = decimal_text(n / 10);
        text.append(digit_text(n % 10));
        assert(text@ =~= decimal(n as nat));
        text
    }
}

/// The two lines that end the output, for the given totals.
pub fn statistics(dir_count: usize, file_count: usize, directories_only: bool) -> (lines: Vec<String>)
    ensures
        texts(lines@) == statistics_lines(dir_count as nat, file_count as nat, directories_only),
{
    let mut summary = decimal_text(dir_count);
    if directories_only {
        summary.append(" directories");
    } else {
        summary.append(" directories, ");
        let files = decimal_text(file_count);
        summary.append(files.as_str());
        summary.append(" files");
    }
    let mut lines: Vec<String> = Vec::new();
    lines.push(String::new());
    lines.push(summary);
    assert(texts(lines@) =~= statistics_lines(
        dir_count as nat,
        file_count as nat,
        directories_only,
    ));
    lines
}

impl TreeNode {
    /// Writes the lines of this entry and of the entries below it, as
    /// `display_entry` does, where `prefix` is not empty. An empty prefix
    /// marks the root, which is written by its caller: nothing is written
    /// and nothing counted.
    pub fn display(
        &self,
        prefix: &str,
        is_last: bool,
        file_count: &mut usize,
        dir_count: &mut usize,
        show_files: bool,
        out: &mut Vec<String>,
    )
        requires
            *old(file_count) + *old(dir_count) <= old(out)@.len(),
        ensures
            texts(final(out)@) == texts(old(out)@) + (if prefix@.len() == 0 {
                Seq::empty()
            } else {
                entry_lines(self@, prefix@, is_last)
            }),
            *final(dir_count) == *old(dir_count) + (if prefix@.len() == 0 {
                0
            } else {
                count_in(self@, true)
            }),
            *final(file_count) == *old(file_count) + (if prefix@.len() == 0 || !show_files {
                0
            } else {
                count_in(self@, false)
            }),
            prefix@.len() == 0 ==> final(out)@ == old(out)@,
    {
        if !prefix.is_empty() {
            self.display_entry(prefix, is_last, file_count, dir_count, show_files, out);
        } else {
            assert(texts(out@) =~= texts(old(out)@) + Seq::<Seq<char>>::empty());
        }
    }

    /// Writes the line of this entry and the lines of all entries below it
    /// to `out`, and counts them: a directory always, a file where
    /// `show_files` is set. The counters must not have counted more than
    /// `out` holds lines; every entry counted here is a line written here,
    /// so they cannot overflow.
    pub fn display_entry(
        &self,
        prefix: &str,
        is_last: bool,
        file_count: &mut usize,
        dir_count: &mut usize,
        show_files: bool,
        out: &mut Vec<String>,
    )
        requires
            *old(file_count) + *old(dir_count) <= old(out)@.len(),
        ensures
            texts(final(out)@) == texts(old(out)@) + entry_lines(self@, prefix@, is_last),
            *final(dir_count) == *old(dir_count) + count_in(self@, true),
            *final(file_count) == *old(file_count) + (if show_files {
                count_in(self@, false)
            } else {
                0
            }),
            *final(file_count) + *final(dir_count) <= final(out)@.len(),
        decreases self,
    {
        let mut line = String::from_str(prefix);
        line.append(if is_last { "└── " } else { "├── " });
        line.append(self.name.as_str());
        out.push(line);
        let written: usize = out.len();
        proof {
            self.lemma_view();
        }
        assert(texts(out@) =~= texts(old(out)@).push(prefix@ + connector(is_last) + self@.name));
        if self.is_dir {
            *dir_count += 1;
        } else if show_files {
            *file_count += 1;
        }
        let mut child_prefix = String::from_str(prefix);
        child_prefix.append(if is_last { "    " } else { "│   " });
        let n: usize = self.children.len();
        let mut i: usize = 0;
        while i < n
            invariant
                0 <= i <= n,
                n == self.children@.len(),
                n == self@.children.len(),
                written == old(out)@.len() + 1,
                child_prefix@ == prefix@ + continuation(is_last),
                texts(out@) == texts(old(out)@) + seq![prefix@ + connector(is_last) + self@.name]
                    + children_lines(self@.children, i as nat, child_prefix@),
                *dir_count == *old(dir_count) + (if self.is_dir { 1nat } else { 0nat }) + count_among(
                    self@.children,
                    i as nat,
                    true,
                ),
                *file_count == *old(file_count) + (if show_files {
                    (if self.is_dir { 0nat } else { 1nat }) + count_among(self@.children, i as nat, false)
                } else {
                    0
                }),
                *file_count + *dir_count <= out@.len(),
            decreases n - i,
        {
            self.children[i].display_entry(
                child_prefix.as_str(),
                i == n - 1,
                file_count,
                dir_count,
                show_files,
                out,
            );
            proof {
                self.lemma_view();
                assert(texts(out@) =~= texts(old(out)@) + seq![
                    prefix@ + connector(is_last) + self@.name,
                ] + children_lines(self@.children, (i + 1) as nat, child_prefix@));
            }
            i += 1;
        }
        assert(texts(out@) =~= texts(old(out)@) + entry_lines(self@, prefix@, is_last));
    }
}

} // verus!
