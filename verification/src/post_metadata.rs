//! Post metadata: the file stem, the title taken from the first line, and
//! the creation date, derived from plain values handed in by the caller.

use vstd::prelude::*;

use crate::chars::{chars_of, string_from_chars};
use crate::date::{formatted_date_spec, Date};

verus! {

/// The index of the last occurrence of `c` in `s`, or -1 if `c` is absent.
pub open spec fn last_index_of(s: Seq<char>, c: char) -> int
    decreases s.len(),
{
    if s.len() == 0 {
        -1
    } else if s[s.len() - 1] == c {
        s.len() - 1
    } else {
        last_index_of(s.drop_last(), c)
    }
}

/// What `last_index_of` returns: the last position holding `c`, if any.
pub proof fn lemma_last_index_of(s: Seq<char>, c: char)
    ensures
        -1 <= last_index_of(s, c) < s.len(),
        last_index_of(s, c) == -1 ==> forall|k: int| 0 <= k < s.len() ==> s[k] != c,
        last_index_of(s, c) >= 0 ==> s[last_index_of(s, c)] == c,
        forall|k: int| last_index_of(s, c) < k < s.len() ==> s[k] != c,
    decreases s.len(),
{
    if s.len() > 0 && s[s.len() - 1] != c {
        lemma_last_index_of(s.drop_last(), c);
        assert(forall|k: int| 0 <= k < s.len() - 1 ==> s[k] == s.drop_last()[k]);
    }
}

/// `path` without its trailing separators, which the file-name lookup
/// ignores.
pub open spec fn strip_trailing_slashes(path: Seq<char>) -> Seq<char>
    decreases path.len(),
{
    if path.len() > 0 && path[path.len() - 1] == '/' {
        strip_trailing_slashes(path.drop_last())
    } else {
        path
    }
}

/// The file-name component of a path: everything after the last `/`, with
/// trailing separators ignored.
pub open spec fn file_name_part(path: Seq<char>) -> Seq<char> {
    let p = strip_trailing_slashes(path);
    p.skip(last_index_of(p, '/') + 1)
}

/// The file stem of a path: its file-name component without the extension
/// after the last dot, unless that dot starts the name. Empty names and the
/// two dot-names have no stem.
pub open spec fn file_stem_of(path: Seq<char>) -> Option<Seq<char>> {
    let name = file_name_part(path);
    if name.len() == 0 || name == seq!['.'] || name == seq!['.', '.'] {
        None
    } else {
        let d = last_index_of(name, '.');
        if d > 0 {
            Some(name.subrange(0, d))
        } else {
            Some(name)
        }
    }
}

/// The first position at or after `i` holding a line break, or the length.
pub open spec fn line_end(s: Seq<char>, i: int) -> int
    decreases s.len() - i,
{
    if i < 0 || i >= s.len() {
        i
    } else if s[i] != '\n' {
        line_end(s, i + 1)
    } else {
        i
    }
}

/// `line_end` never moves backwards nor past the end.
pub proof fn lemma_line_end_bounds(s: Seq<char>, i: int)
    requires
        0 <= i <= s.len(),
    ensures
        i <= line_end(s, i) <= s.len(),
    decreases s.len() - i,
{
    if i < s.len() && s[i] != '\n' {
        lemma_line_end_bounds(s, i + 1);
    }
}

/// A character with the Unicode `White_Space` property, the set std's
/// `char::is_whitespace` documents.
pub open spec fn is_space(c: char) -> bool {
    ||| c == ' '
    ||| ('\u{0009}' <= c && c <= '\u{000D}')
    ||| c == '\u{0085}'
    ||| c == '\u{00A0}'
    ||| c == '\u{1680}'
    ||| ('\u{2000}' <= c && c <= '\u{200A}')
    ||| c == '\u{2028}'
    ||| c == '\u{2029}'
    ||| c == '\u{202F}'
    ||| c == '\u{205F}'
    ||| c == '\u{3000}'
}

/// `s` without its leading whitespace.
pub open spec fn trim_start(s: Seq<char>) -> Seq<char>
    decreases s.len(),
{
    if s.len() > 0 && is_space(s[0]) {
        trim_start(s.drop_first())
    } else {
        s
    }
}

/// `s` without its trailing whitespace.
pub open spec fn trim_end(s: Seq<char>) -> Seq<char>
    decreases s.len(),
{
    if s.len() > 0 && is_space(s[s.len() - 1]) {
        trim_end(s.drop_last())
    } else {
        s
    }
}

/// `s` without leading and trailing whitespace.
pub open spec fn trim_spec(s: Seq<char>) -> Seq<char> {
    trim_end(trim_start(s))
}

/// `s` without every repetition of a leading `# ` heading marker.
pub open spec fn strip_heading(s: Seq<char>) -> Seq<char>
    decreases s.len(),
{
    if s.len() >= 2 && s[0] == '#' && s[1] == ' ' {
        strip_heading(s.skip(2))
    } else {
        s
    }
}

/// The first line of `content`, without its line break and without a
/// trailing carriage return.
pub open spec fn title_line(content: Seq<char>) -> Seq<char> {
    let l = content.subrange(0, line_end(content, 0));
    if l.len() > 0 && l[l.len() - 1] == '\r' {
        l.drop_last()
    } else {
        l
    }
}

/// The title of a post: its first line, with the heading marker and the
/// surrounding whitespace stripped. An empty file has no title.
pub open spec fn title_of(content: Seq<char>) -> Option<Seq<char>> {
    if content.len() == 0 {
        None
    } else {
        Some(trim_spec(strip_heading(title_line(content))))
    }
}

/// Why metadata could not be derived.
#[derive(Debug, PartialEq, Eq, Structural)]
pub enum MetadataError {
    /// The path has no extractable file stem.
    MissingFileStem,
    /// The file is empty, so no title line could be read.
    MissingTitle,
}

/// The derived, read-only record describing one post source file.
#[derive(Debug, Clone)]
pub struct PostMetadata {
    pub path: String,
    pub file_name: String,
    pub title: String,
    pub date_created: Date,
}

/// The abstract value of a metadata record: path, file stem, title and
/// creation date.
pub type MetaView = (Seq<char>, Seq<char>, Seq<char>, (int, int, int));

impl View for PostMetadata {
    type V = MetaView;

    open spec fn view(&self) -> MetaView {
        (self.path@, self.file_name@, self.title@, self.date_created@)
    }
}

impl PostMetadata {
    /// Derives the metadata of the post at `file_path` from its raw
    /// `content` and its filesystem creation date.
    pub fn collect(file_path: &str, content: &str, date_created: Date) -> (r: Result<
        PostMetadata,
        MetadataError,
    >)
        ensures
            r is Ok <==> (file_stem_of(file_path@) is Some && content@.len() > 0),
            r is Ok ==> {
                let m = r->Ok_0;
                &&& m.path@ == file_path@
                &&& m.file_name@ == file_stem_of(file_path@)->0
                &&& m.title@ == title_of(content@)->0
                &&& m.date_created == date_created
            },
            r is Err ==> (r->Err_0 == MetadataError::MissingFileStem && file_stem_of(file_path@)
                is None) || (r->Err_0 == MetadataError::MissingTitle && content@.len() == 0
                && file_stem_of(file_path@) is Some),
    {
        let file_name = match Self::extract_file_name(file_path) {
            Ok(n) => n,
            Err(e) => {
                return Err(e);
            },
        };
        let title = match Self::extract_post_title(content) {
            Ok(t) => t,
            Err(e) => {
                return Err(e);
            },
        };
        Ok(
            PostMetadata {
                path: String::from_str(file_path),
                file_name,
                title,
                date_created,
            },
        )
    }

    /// The creation date as `DD/MM/YYYY`.
    pub fn formatted_date(&self) -> (r: String)
        ensures
            r@ == formatted_date_spec(self.date_created@),
    {
        self.date_created.formatted()
    }

    /// The file stem of `file_path`, or the error naming its absence.
    fn extract_file_name(file_path: &str) -> (r: Result<String, MetadataError>)
        ensures
            r is Ok <==> file_stem_of(file_path@) is Some,
            r is Ok ==> r->Ok_0@ == file_stem_of(file_path@)->0,
            r is Err ==> r->Err_0 == MetadataError::MissingFileStem,
    {
        let cs = chars_of(file_path);
        let n = cs.len();
        // Ignore trailing separators.
        let mut end: usize = n;
        proof {
            assert(cs@.subrange(0, n as int) =~= cs@);
        }
        while end > 0 && cs[end - 1] == '/'
            invariant
                n == cs@.len(),
                0 <= end <= n,
                strip_trailing_slashes(cs@) == strip_trailing_slashes(
                    cs@.subrange(0, end as int),
                ),
            decreases end,
        {
            proof {
                let v = cs@.subrange(0, end as int);
                assert(v[v.len() - 1] == '/');
                assert(v.drop_last() =~= cs@.subrange(0, end - 1));
            }
            end -= 1;
        }
        let ghost p = strip_trailing_slashes(cs@);
        proof {
            assert(p == cs@.subrange(0, end as int));
            lemma_last_index_of(p, '/');
        }
        // Find the start of the file-name component.
        let mut start: usize = end;
        while start > 0 && cs[start - 1] != '/'
            invariant
                n == cs@.len(),
                0 <= start <= end <= n,
                forall|k: int| start <= k < end ==> cs@[k] != '/',
            decreases start,
        {
            start -= 1;
        }
        proof {
            if start > 0 {
                assert(cs@[start - 1] == '/');
                assert(p[start - 1] == '/');
            }
            assert(forall|k: int| start <= k < end ==> p[k] == cs@[k]);
            assert(last_index_of(p, '/') == start - 1);
            assert(file_name_part(file_path@) =~= cs@.subrange(start as int, end as int));
        }
        let name_len = end - start;
        if name_len == 0 {
            return Err(MetadataError::MissingFileStem);
        }
        if name_len == 1 && cs[start] == '.' {
            proof {
                assert(file_name_part(file_path@) =~= seq!['.']);
            }
            return Err(MetadataError::MissingFileStem);
        }
        if name_len == 2 && cs[start] == '.' && cs[start + 1] == '.' {
            proof {
                assert(file_name_part(file_path@) =~= seq!['.', '.']);
            }
            return Err(MetadataError::MissingFileStem);
        }
        proof {
            let name = file_name_part(file_path@);
            assert(name.len() > 0);
            assert(name != seq!['.'] && name != seq!['.', '.']) by {
                if name.len() == 1 && name[0] == '.' {
                    assert(cs@[start as int] == '.');
                }
                if name.len() == 2 && name[0] == '.' && name[1] == '.' {
                    assert(cs@[start as int] == '.' && cs@[start + 1] == '.');
                }
            }
        }
        // Find the last dot inside the name.
        let ghost name = file_name_part(file_path@);
        proof {
            lemma_last_index_of(name, '.');
        }
        let mut dot: usize = end;
        while dot > start && cs[dot - 1] != '.'
            invariant
                n == cs@.len(),
                start <= dot <= end <= n,
                forall|k: int| dot <= k < end ==> cs@[k] != '.',
            decreases dot,
        {
            dot -= 1;
        }
        proof {
            assert(forall|k: int| dot - start < k + 1 && k < name.len() ==> name[k] != '.');
            if dot > start {
                assert(name[dot - start - 1] == '.');
                assert(last_index_of(name, '.') == dot - start - 1);
            } else {
                assert(forall|k: int| 0 <= k < name.len() ==> name[k] != '.');
                assert(last_index_of(name, '.') == -1);
            }
        }
        let stem_end: usize = if dot > start + 1 {
            dot - 1
        } else {
            end
        };
        proof {
            assert(file_stem_of(file_path@)->0 =~= cs@.subrange(start as int, stem_end as int));
        }
        let mut out: Vec<char> = Vec::new();
        let mut k: usize = start;
        while k < stem_end
            invariant
                n == cs@.len(),
                start <= k <= stem_end <= n,
                out@ == cs@.subrange(start as int, k as int),
            decreases stem_end - k,
        {
            out.push(cs[k]);
            assert(out@ =~= cs@.subrange(start as int, k + 1));
            k += 1;
        }
        Ok(string_from_chars(&out))
    }

    /// The title from the first line of `content`, or the error for an
    /// empty file.
    #[verifier::rlimit(60)]
    fn extract_post_title(content: &str) -> (r: Result<String, MetadataError>)
        ensures
            r is Ok <==> title_of(content@) is Some,
            r is Ok ==> r->Ok_0@ == title_of(content@)->0,
            r is Err ==> r->Err_0 == MetadataError::MissingTitle,
    {
        let cs = chars_of(content);
        let n = cs.len();
        if n == 0 {
            return Err(MetadataError::MissingTitle);
        }
        // The first line.
        let mut e: usize = 0;
        while e < n && cs[e] != '\n'
            invariant
                n == cs@.len(),
                0 <= e <= n,
                line_end(cs@, 0) == line_end(cs@, e as int),
            decreases n - e,
        {
            e += 1;
        }
        proof {
            assert(line_end(cs@, 0) == e as int);
        }
        // Without a trailing carriage return.
        let line_len: usize = if e > 0 && cs[e - 1] == '\r' {
            e - 1
        } else {
            e
        };
        let ghost line = title_line(content@);
        proof {
            assert(cs@.subrange(0, e as int).len() == e as int);
            if e > 0 && cs@[e - 1] == '\r' {
                assert(line =~= cs@.subrange(0, line_len as int));
            } else {
                assert(line =~= cs@.subrange(0, line_len as int));
            }
        }
        // Strip every leading heading marker.
        let mut st: usize = 0;
        proof {
            assert(line.skip(0) =~= line);
        }
        while st < line_len && line_len - st >= 2 && cs[st] == '#' && cs[st + 1] == ' '
            invariant
                n == cs@.len(),
                line_len <= n,
                line == cs@.subrange(0, line_len as int),
                0 <= st <= line_len,
                strip_heading(line) == strip_heading(line.skip(st as int)),
            decreases line_len - st,
        {
            proof {
                let w = line.skip(st as int);
                assert(w.len() >= 2 && w[0] == '#' && w[1] == ' ');
                assert(w.skip(2) =~= line.skip(st + 2));
            }
            st += 2;
        }
        proof {
            let w = line.skip(st as int);
            assert(!(w.len() >= 2 && w[0] == '#' && w[1] == ' '));
            assert(strip_heading(line) == w);
        }
        // Trim leading whitespace.
        let mut f: usize = st;
        while f < line_len && is_space_char(cs[f])
            invariant
                n == cs@.len(),
                line_len <= n,
                line == cs@.subrange(0, line_len as int),
                st <= f <= line_len,
                trim_start(line.skip(st as int)) == trim_start(line.skip(f as int)),
            decreases line_len - f,
        {
            proof {
                let w = line.skip(f as int);
                assert(w.len() > 0 && is_space(w[0]));
                assert(w.drop_first() =~= line.skip(f + 1));
            }
            f += 1;
        }
        proof {
            assert(trim_start(line.skip(st as int)) == line.skip(f as int));
        }
        // Trim trailing whitespace.
        let mut b: usize = line_len;
        proof {
            assert(line.skip(f as int) =~= line.subrange(f as int, line_len as int));
        }
        while b > f && is_space_char(cs[b - 1])
            invariant
                n == cs@.len(),
                line_len <= n,
                line == cs@.subrange(0, line_len as int),
                f <= b <= line_len,
                trim_end(line.skip(f as int)) == trim_end(line.subrange(f as int, b as int)),
            decreases b,
        {
            proof {
                let w = line.subrange(f as int, b as int);
                assert(w.len() > 0 && is_space(w[w.len() - 1]));
                assert(w.drop_last() =~= line.subrange(f as int, b - 1));
            }
            b -= 1;
        }
        proof {
            let w = line.subrange(f as int, b as int);
            assert(trim_end(w) == w);
            assert(line.skip(f as int) =~= line.subrange(f as int, line_len as int));
            assert(title_of(content@)->0 == line.subrange(f as int, b as int));
        }
        let mut out: Vec<char> = Vec::new();
        let mut k: usize = f;
        proof {
            assert(line.subrange(f as int, f as int) =~= Seq::<char>::empty());
        }
        while k < b
            invariant
                n == cs@.len(),
                line_len <= n,
                line == cs@.subrange(0, line_len as int),
                f <= k <= b <= line_len,
                out@ == line.subrange(f as int, k as int),
            decreases b - k,
        {
            out.push(cs[k]);
            assert(out@ =~= line.subrange(f as int, k + 1));
            k += 1;
        }
        Ok(string_from_chars(&out))
    }
}

/// The characters of `cs` from `from` on, trimmed of leading and trailing
/// whitespace.
pub fn trim_tail(cs: &Vec<char>, from: usize) -> (out: Vec<char>)
    requires
        from <= cs@.len(),
    ensures
        out@ == trim_spec(cs@.skip(from as int)),
{
    let n = cs.len();
    let ghost w = cs@.skip(from as int);
    let mut f: usize = from;
    while f < n && is_space_char(cs[f])
        invariant
            n == cs@.len(),
            w == cs@.skip(from as int),
            from <= f <= n,
            trim_start(w) == trim_start(cs@.skip(f as int)),
        decreases n - f,
    {
        proof {
            let v = cs@.skip(f as int);
            assert(v.len() > 0 && is_space(v[0]));
            assert(v.drop_first() =~= cs@.skip(f + 1));
        }
        f += 1;
    }
    proof {
        assert(trim_start(w) == cs@.skip(f as int));
        assert(cs@.skip(f as int) =~= cs@.subrange(f as int, n as int));
    }
    let mut b: usize = n;
    while b > f && is_space_char(cs[b - 1])
        invariant
            n == cs@.len(),
            w == cs@.skip(from as int),
            trim_start(w) == cs@.subrange(f as int, n as int),
            f <= b <= n,
            trim_end(trim_start(w)) == trim_end(cs@.subrange(f as int, b as int)),
        decreases b,
    {
        proof {
            let v = cs@.subrange(f as int, b as int);
            assert(v.len() > 0 && is_space(v[v.len() - 1]));
            assert(v.drop_last() =~= cs@.subrange(f as int, b - 1));
        }
        b -= 1;
    }
    proof {
        let v = cs@.subrange(f as int, b as int);
        assert(trim_end(v) == v);
        assert(cs@.subrange(f as int, f as int) =~= Seq::<char>::empty());
    }
    let mut out: Vec<char> = Vec::new();
    let mut k: usize = f;
    while k < b
        invariant
            n == cs@.len(),
            f <= k <= b <= n,
            out@ == cs@.subrange(f as int, k as int),
        decreases b - k,
    {
        out.push(cs[k]);
        assert(out@ =~= cs@.subrange(f as int, k + 1));
        k += 1;
    }
    out
}

/// Whether `c` is whitespace, decided executably.
fn is_space_char(c: char) -> (r: bool)
    ensures
        r == is_space(c),
{
    c == ' ' || ('\u{0009}' <= c && c <= '\u{000D}') || c == '\u{0085}' || c == '\u{00A0}'
        || c == '\u{1680}' || ('\u{2000}' <= c && c <= '\u{200A}') || c == '\u{2028}' || c
        == '\u{2029}' || c == '\u{202F}' || c == '\u{205F}' || c == '\u{3000}'
}

} // verus!
