//! Directory listings: the order in which entries are shown, and the lines
//! printed for one directory once the file system has answered.

use vstd::prelude::*;
use vstd::utf8::encode_utf8;

verus! {

/// Lexicographic order on byte strings: the first differing byte decides,
/// and a proper prefix comes before what it is a prefix of.
pub open spec fn bytes_precede(a: Seq<u8>, b: Seq<u8>) -> bool
    decreases a.len(),
{
    if a.len() == 0 {
        true
    } else if b.len() == 0 {
        false
    } else if a[0] != b[0] {
        a[0] < b[0]
    } else {
        bytes_precede(a.drop_first(), b.drop_first())
    }
}

/// The order of entries: that of their UTF-8 bytes.
pub open spec fn precedes(a: Seq<char>, b: Seq<char>) -> bool {
    bytes_precede(encode_utf8(a), encode_utf8(b))
}

/// Whether each line precedes all that come after it.
pub open spec fn is_sorted(lines: Seq<Seq<char>>) -> bool {
    forall|i: int, j: int| 0 <= i < j < lines.len() ==> precedes(lines[i], lines[j])
}

/// Of any two byte strings one precedes the other.
pub proof fn lemma_bytes_precede_total(a: Seq<u8>, b: Seq<u8>)
    ensures
        bytes_precede(a, b) || bytes_precede(b, a),
    decreases a.len(),
{
    if a.len() > 0 && b.len() > 0 && a[0] == b[0] {
        lemma_bytes_precede_total(a.drop_first(), b.drop_first());
    }
}

/// What precedes a byte string precedes all that the byte string precedes.
pub proof fn lemma_bytes_precede_transitive(a: Seq<u8>, b: Seq<u8>, c: Seq<u8>)
    requires
        bytes_precede(a, b),
        bytes_precede(b, c),
    ensures
        bytes_precede(a, c),
    decreases a.len(),
{
    if a.len() > 0 && a[0] == b[0] && b[0] == c[0] {
        lemma_bytes_precede_transitive(a.drop_first(), b.drop_first(), c.drop_first());
    }
}

/// Two byte strings that precede each other are the same.
pub proof fn lemma_bytes_precede_antisymmetric(a: Seq<u8>, b: Seq<u8>)
    requires
        bytes_precede(a, b),
        bytes_precede(b, a),
    ensures
        a == b,
    decreases a.len(),
{
    if a.len() > 0 {
        lemma_bytes_precede_antisymmetric(a.drop_first(), b.drop_first());
        assert(a == seq![a[0]] + a.drop_first());
        assert(b == seq![b[0]] + b.drop_first());
    } else {
        assert(a == b);
    }
}

/// Two texts that precede each other are the same text.
pub proof fn lemma_precedes_antisymmetric(a: Seq<char>, b: Seq<char>)
    requires
        precedes(a, b),
        precedes(b, a),
    ensures
        a == b,
{
    lemma_bytes_precede_antisymmetric(encode_utf8(a), encode_utf8(b));
    vstd::utf8::encode_utf8_decode_utf8(a);
    vstd::utf8::encode_utf8_decode_utf8(b);
}

/// Tests whether `a` precedes `b` in the order of entries.
pub fn comes_before(a: &str, b: &str) -> (before: bool)
    ensures
        before == precedes(a@, b@),
{
    let x = a.as_bytes();
    let y = b.as_bytes();
    let mut i: usize = 0;
    assert(x@.skip(0) == x@ && y@.skip(0) == y@);
    while i < x.len() && i < y.len()
        invariant
            i <= x.len(),
            i <= y.len(),
            x@ == encode_utf8(a@),
            y@ == encode_utf8(b@),
            bytes_precede(x@, y@) == bytes_precede(x@.skip(i as int), y@.skip(i as int)),
        decreases x.len() - i,
    {
        assert(x@.skip(i as int)[0] == x[i as int] && y@.skip(i as int)[0] == y[i as int]);
        if x[i] != y[i] {
            return x[i] < y[i];
        }
        assert(x@.skip(i as int).drop_first() == x@.skip(i + 1));
        assert(y@.skip(i as int).drop_first() == y@.skip(i + 1));
        i += 1;
    }
    x.len() <= y.len()
}

/// Sorts the lines into the order of entries.
pub fn sort_lines(lines: Vec<String>) -> (sorted: Vec<String>)
    ensures
        is_sorted(sorted.deep_view()),
        sorted.deep_view().to_multiset() == lines.deep_view().to_multiset(),
{
    let mut rest = lines;
    let mut sorted: Vec<String> = Vec::new();
    proof {
        vstd::seq_lib::to_multiset_len(sorted.deep_view());
    }
    loop
        invariant
            is_sorted(sorted.deep_view()),
            lines.deep_view().to_multiset() == rest.deep_view().to_multiset().add(
                sorted.deep_view().to_multiset(),
            ),
        ensures
            is_sorted(sorted.deep_view()),
            sorted.deep_view().to_multiset() == lines.deep_view().to_multiset(),
        decreases rest.len(),
    {
        let ghost rest_before = rest.deep_view();
        let ghost sorted_before = sorted.deep_view();
        let line = match rest.pop() {
            Some(line) => line,
            None => {
                proof {
                    vstd::seq_lib::to_multiset_len(rest.deep_view());
                }
                break ;
            },
        };
        proof {
            assert(rest_before == rest.deep_view().push(line@));
            vstd::seq_lib::to_multiset_build(rest.deep_view(), line@);
        }

        let mut at: usize = 0;
        while at < sorted.len() && comes_before(sorted[at].as_str(), line.as_str())
            invariant
                at <= sorted.len(),
                sorted.deep_view() == sorted_before,
                forall|k: int| 0 <= k < at ==> precedes(#[trigger] sorted_before[k], line@),
            decreases sorted.len() - at,
        {
            at += 1;
        }
        sorted.insert(at, line);
        proof {
            let after = sorted.deep_view();
            assert(after == sorted_before.insert(at as int, line@));
            vstd::seq_lib::to_multiset_insert(sorted_before, at as int, line@);
            assert forall|i: int, j: int| 0 <= i < j < after.len() implies precedes(
                after[i],
                after[j],
            ) by {
                if i == at {
                    let next = sorted_before[at as int];
                    lemma_bytes_precede_total(encode_utf8(next), encode_utf8(line@));
                    if j > at + 1 {
                        assert(precedes(next, sorted_before[j - 1]));
                        lemma_bytes_precede_transitive(
                            encode_utf8(line@),
                            encode_utf8(next),
                            encode_utf8(sorted_before[j - 1]),
                        );
                    }
                }
            }
        }
    }
    sorted
}

/// What the file system said of a path that is to be listed.
#[derive(Debug, PartialEq, Eq)]
pub enum DirectoryProbe {
    /// Nothing exists at the path.
    Missing,
    /// The path exists and is no directory.
    NotADirectory,
    /// The path is a directory, and these are its entries, in any order.
    Entries(Vec<String>),
}

/// A `DirectoryProbe` with its strings as sequences of characters.
pub enum DirectoryProbeView {
    /// Nothing exists at the path.
    Missing,
    /// The path exists and is no directory.
    NotADirectory,
    /// The path is a directory, and these are its entries, in any order.
    Entries(Seq<Seq<char>>),
}

impl View for DirectoryProbe {
    type V = DirectoryProbeView;

    open spec fn view(&self) -> DirectoryProbeView {
        match self {
            DirectoryProbe::Missing => DirectoryProbeView::Missing,
            DirectoryProbe::NotADirectory => DirectoryProbeView::NotADirectory,
            DirectoryProbe::Entries(entries) => DirectoryProbeView::Entries(entries.deep_view()),
        }
    }
}

/// Whether `lines` are the entries, each once for each time it occurs, in
/// the order of entries.
pub open spec fn is_listing(lines: Seq<Seq<char>>, entries: Seq<Seq<char>>) -> bool {
    is_sorted(lines) && lines.to_multiset() == entries.to_multiset()
}

/// The entries determine their listing: two listings of the same entries
/// are the same lines.
pub proof fn lemma_listing_is_unique(a: Seq<Seq<char>>, b: Seq<Seq<char>>, entries: Seq<Seq<char>>)
    requires
        is_listing(a, entries),
        is_listing(b, entries),
    ensures
        a == b,
{
    let leq = |x: Seq<char>, y: Seq<char>| precedes(x, y);
    assert forall|x: Seq<char>, y: Seq<char>| #[trigger] leq(x, y) || #[trigger] leq(y, x) by {
        lemma_bytes_precede_total(encode_utf8(x), encode_utf8(y));
    }
    assert forall|x: Seq<char>, y: Seq<char>| #[trigger] leq(x, y) && #[trigger] leq(y, x) implies x
        == y by {
        lemma_precedes_antisymmetric(x, y);
    }
    assert forall|x: Seq<char>, y: Seq<char>, z: Seq<char>| #[trigger]
        leq(x, y) && #[trigger] leq(y, z) implies leq(x, z) by {
        lemma_bytes_precede_transitive(encode_utf8(x), encode_utf8(y), encode_utf8(z));
    }
    assert forall|x: Seq<char>| #[trigger] leq(x, x) by {
        lemma_bytes_precede_total(encode_utf8(x), encode_utf8(x));
    }
    assert(vstd::relations::total_ordering(leq));
    assert(vstd::relations::sorted_by(a, leq));
    assert(vstd::relations::sorted_by(b, leq));
    vstd::seq_lib::lemma_sorted_unique(a, b, leq);
}

/// Whether `lines` are what is printed for `path`, one of `listed`
/// directories that a command lists. A path that cannot be listed gets one
/// line that says why. A directory gets its sorted entries; where the
/// command lists more than one directory, a line with the path and a colon
/// goes before them and an empty line after.
pub open spec fn is_report(
    lines: Seq<Seq<char>>,
    path: Seq<char>,
    probe: DirectoryProbeView,
    listed: nat,
) -> bool {
    match probe {
        DirectoryProbeView::Missing => lines == seq!["Directory "@ + path + " does not exist"@],
        DirectoryProbeView::NotADirectory => lines == seq![path + " is not a directory"@],
        DirectoryProbeView::Entries(entries) => if listed > 1 {
            &&& lines.len() == entries.len() + 2
            &&& lines.first() == path + ":"@
            &&& lines.last() == Seq::<char>::empty()
            &&& is_listing(lines.subrange(1, lines.len() - 1), entries)
        } else {
            is_listing(lines, entries)
        },
    }
}

/// Gives the lines to print for `path`, one of `listed` directories that a
/// command lists, once the file system has been asked about it.
pub fn directory_report(path: &str, probe: DirectoryProbe, listed: usize) -> (lines: Vec<String>)
    ensures
        is_report(lines.deep_view(), path@, probe@, listed as nat),
{
    match probe {
        DirectoryProbe::Missing => {
            let mut line = "Directory ".to_owned();
            line.append(path);
            line.append(" does not exist");
            let mut lines: Vec<String> = Vec::new();
            lines.push(line);
            assert(lines.deep_view() == seq![line@]);
            lines
        },
        DirectoryProbe::NotADirectory => {
            let mut line = path.to_owned();
            line.append(" is not a directory");
            let mut lines: Vec<String> = Vec::new();
            lines.push(line);
            assert(lines.deep_view() == seq![line@]);
            lines
        },
        DirectoryProbe::Entries(entries) => {
            let mut sorted = sort_lines(entries);
            if listed > 1 {
                let ghost body = sorted.deep_view();
                let mut header = path.to_owned();
                header.append(":");
                let mut lines: Vec<String> = Vec::new();
                lines.push(header);
                lines.append(&mut sorted);
                lines.push(String::new());
                proof {
                    vstd::seq_lib::to_multiset_len(body);
                    vstd::seq_lib::to_multiset_len(entries.deep_view());
                    assert(lines.deep_view().subrange(1, lines.len() - 1) == body);
                }
                lines
            } else {
                sorted
            }
        },
    }
}

} // verus!
