//! Where the entries of a zip go: names, and the paths below a folder that
//! they stand for.
use vstd::prelude::*;
use crate::words::{find, parts_at};

verus! {

/// A path with `/` in place of `\`.
pub open spec fn slashed(s: Seq<char>) -> Seq<char> {
    s.map_values(
        |c: char|
            if c == '\\' {
                '/'
            } else {
                c
            },
    )
}

/// The parts of a path, between separators of either kind.
pub open spec fn pieces_of(s: Seq<char>) -> Seq<Seq<char>> {
    parts_at(slashed(s), '/', 0)
}

/// A part that names nothing: it stays where it is, or goes back.
pub open spec fn is_move(p: Seq<char>) -> bool {
    p == ""@ || p == "."@ || p == ".."@
}

/// The names that the first `n` parts lead through, where `..` takes back the
/// one before it.
pub open spec fn steps_upto(pieces: Seq<Seq<char>>, n: int) -> Seq<Seq<char>>
    decreases n,
{
    if n <= 0 {
        Seq::empty()
    } else {
        let before = steps_upto(pieces, n - 1);
        let p = pieces[n - 1];
        if p == ".."@ {
            if before.len() > 0 {
                before.drop_last()
            } else {
                before
            }
        } else if is_move(p) {
            before
        } else {
            before.push(p)
        }
    }
}

/// The names that a path leads through, from the folder it starts in.
pub open spec fn steps_of(s: Seq<char>) -> Seq<Seq<char>> {
    steps_upto(pieces_of(s), pieces_of(s).len() as int)
}

/// A path that goes back behind the folder it starts in.
pub open spec fn leads_out(s: Seq<char>) -> bool {
    exists|k: int|
        0 <= k < pieces_of(s).len() && #[trigger] pieces_of(s)[k] == ".."@ && steps_upto(
            pieces_of(s),
            k,
        ).len() == 0
}

/// A path that no system takes for one from a root or a drive, or for one
/// with other separators.
pub open spec fn is_relative(s: Seq<char>) -> bool {
    &&& s.len() > 0 ==> s[0] != '/'
    &&& !s.contains('\\')
    &&& !s.contains(':')
    &&& !s.contains('\0')
}

/// `A` to `Z` in place of `a` to `z`.
pub open spec fn upper(s: Seq<char>) -> Seq<char> {
    s.map_values(
        |c: char|
            if 'a' <= c <= 'z' {
                (c as int - 0x20) as char
            } else {
                c
            },
    )
}

/// A name that may stand for a device on some system, without its extension
/// and the spaces before that.
pub open spec fn is_device(p: Seq<char>) -> bool {
    exists|n: int|
        0 <= n <= find(p, '.', 0) && {
            let stem = upper(#[trigger] p.take(n));
            &&& forall|k: int| n <= k < find(p, '.', 0) ==> #[trigger] p[k] == ' '
            &&& {
                ||| stem == "CON"@ || stem == "PRN"@ || stem == "AUX"@ || stem == "NUL"@
                ||| stem == "CONIN$"@ || stem == "CONOUT$"@ || stem == "CLOCK$"@
                ||| stem.len() == 4 && (stem.take(3) == "COM"@ || stem.take(3) == "LPT"@)
            }
        }
}

/// UTF-16 code units of a text.
pub open spec fn units(s: Seq<char>) -> int
    decreases s.len(),
{
    if s.len() == 0 {
        0
    } else {
        units(s.drop_last()) + (if s.last() as int > 0xFFFF {
            2int
        } else {
            1
        })
    }
}

/// A character that some system refuses in names.
pub open spec fn is_refused(c: char) -> bool {
    ||| c == '<' || c == '>' || c == ':' || c == '"'
    ||| c == '|' || c == '?' || c == '*'
    ||| (c as int) <= 0x1F || c == '\u{7f}'
}

/// A name that every system takes.
pub open spec fn is_plain(p: Seq<char>) -> bool {
    &&& 0 < p.len()
    &&& units(p) <= 255
    &&& forall|k: int| 0 <= k < p.len() ==> !is_refused(#[trigger] p[k])
    &&& p.last() != '.' && p.last() != ' '
    &&& !is_device(p)
}

/// A path that every system takes, and that stays below its folder.
pub open spec fn is_portable(s: Seq<char>) -> bool {
    &&& is_relative(s)
    &&& !leads_out(s)
    &&& forall|k: int|
        0 <= k < pieces_of(s).len() ==> is_move(#[trigger] pieces_of(s)[k]) || is_plain(
            pieces_of(s)[k],
        )
}

/// A path that stays below the folder it is put into, on any system: it is
/// relative, and has no parent part.
pub open spec fn is_enclosed(path: Seq<char>) -> bool {
    &&& path.len() > 0 ==> path[0] != '/' && path[0] != '\\'
    &&& !pieces_of(path).contains(".."@)
}

/// What holds of the path that an entry of this name gets, on every system.
/// It stays below the folder, and leads where the name leads. A name that
/// leads out of the folder gets none; one that every system takes gets one.
/// Left open are names that only some systems refuse, and names from a root
/// or a drive.
pub open spec fn path_fits(name: Seq<char>, path: Option<Seq<char>>) -> bool {
    &&& path is Some ==> is_enclosed(path->Some_0)
    &&& path is Some && is_relative(name) ==> steps_of(path->Some_0) == steps_of(name)
    &&& is_relative(name) && leads_out(name) ==> path is None
    &&& name.contains('\0') ==> path is None
    &&& is_portable(name) ==> path is Some
}

/// A name that stands for a directory.
pub open spec fn names_dir(name: Seq<char>) -> bool {
    name.len() > 0 && (name.last() == '/' || name.last() == '\\')
}

} // verus!
