//! Decisions of the FUSE front end that need no inode tree: the commands
//! written to `.tagfs_ctl`, the snapshot names written to
//! `.snapshots/.create` or encoded in directory names, the file a tag
//! directory entry names, and block counts.
use vstd::prelude::*;
use crate::file_manager::{spec_resolve_path, tags_of, tags_set_to, tags_updated, FileManager};
use crate::text::{
    split_words, str_trim, string_from_utf8_lossy, string_of, strip_prefix_text, trim_str,
    utf8_lossy, words_of,
};

verus! {

/// Why a file system request fails.
#[derive(Debug, Clone, Copy, PartialEq, Eq, Structural)]
pub enum FsError {
    /// The request is malformed or ambiguous.
    InvalidArgument,
    /// What the request names does not exist.
    NotFound,
    /// The metadata store failed.
    Io,
    /// What the request would change is read-only.
    ReadOnly,
    /// The request wants a file and names a directory.
    IsDirectory,
    /// What the request would create exists already.
    AlreadyExists,
    /// What the request would change may not be written to: a file or
    /// directory inside a snapshot.
    PermissionDenied,
}

/// A command written to the control file.
pub enum ControlCommand {
    /// `set <path> <tag>...`: replace the tags of the file at `path`.
    SetTags { path: String, tags: Vec<String> },
    /// `del <path>`: remove every tag of the file at `path`.
    DeleteTags { path: String },
}

/// A control command as plain values.
pub enum CommandView {
    SetTags(Seq<char>, Seq<Seq<char>>),
    DeleteTags(Seq<char>),
}

/// The plain values of a command.
pub open spec fn command_view(c: ControlCommand) -> CommandView {
    match c {
        ControlCommand::SetTags { path, tags } => CommandView::SetTags(path@, tags.deep_view()),
        ControlCommand::DeleteTags { path } => CommandView::DeleteTags(path@),
    }
}

/// The words of what was written to the control file: the bytes as UTF-8
/// (invalid sequences replaced), trimmed, split at white space.
pub open spec fn control_words(data: Seq<u8>) -> Seq<Seq<char>> {
    words_of(str_trim(utf8_lossy(data)))
}

/// The command that words spell: `set`, a path and at least one tag, or
/// `del` and a path (further words ignored); nothing else is a command.
pub open spec fn command_of_words(w: Seq<Seq<char>>) -> Option<CommandView> {
    if w.len() < 2 {
        None
    } else if w[0] == seq!['s', 'e', 't'] {
        if w.len() < 3 {
            None
        } else {
            Some(CommandView::SetTags(w[1], w.skip(2)))
        }
    } else if w[0] == seq!['d', 'e', 'l'] {
        Some(CommandView::DeleteTags(w[1]))
    } else {
        None
    }
}

/// The command written to the control file, or `InvalidArgument`.
pub fn parse_control_command(data: &[u8]) -> (r: Result<ControlCommand, FsError>)
    ensures
        match command_of_words(control_words(data@)) {
            Some(c) => r is Ok && command_view(r->Ok_0) == c,
            None => r == Err::<ControlCommand, FsError>(FsError::InvalidArgument),
        },
{
    let text = string_from_utf8_lossy(data);
    let command = trim_str(text.as_str());
    if command.is_empty() {
        assert(command@ =~= Seq::<char>::empty());
        assert(words_of(command@) =~= Seq::<Seq<char>>::empty());
        return Err(FsError::InvalidArgument);
    }
    let parts = split_words(command);
    let ghost w = parts.deep_view();
    if parts.len() < 2 {
        return Err(FsError::InvalidArgument);
    }
    let set_word = string_of("set");
    let del_word = string_of("del");
    proof {
        reveal_strlit("set");
        reveal_strlit("del");
        assert(parts@[0]@ == w[0]);
        assert(parts@[1]@ == w[1]);
        assert(set_word@ =~= seq!['s', 'e', 't']);
        assert(del_word@ =~= seq!['d', 'e', 'l']);
    }
    if parts[0] == set_word {
        assert(w[0] =~= seq!['s', 'e', 't']);
        if parts.len() < 3 {
            return Err(FsError::InvalidArgument);
        }
        let path = parts[1].clone();
        let mut tags: Vec<String> = Vec::new();
        let mut i: usize = 2;
        while i < parts.len()
            invariant
                2 <= i <= parts@.len(),
                w == parts.deep_view(),
                tags.deep_view() == w.subrange(2, i as int),
            decreases parts@.len() - i,
        {
            let t = parts[i].clone();
            assert(t@ == w[i as int]);
            let ghost before = tags.deep_view();
            tags.push(t);
            assert(tags.deep_view() =~= before.push(w[i as int]));
            assert(tags.deep_view() =~= w.subrange(2, i + 1));
            i = i + 1;
        }
        assert(w.subrange(2, w.len() as int) =~= w.skip(2));
        Ok(ControlCommand::SetTags { path, tags })
    } else if parts[0] == del_word {
        assert(w[0] =~= seq!['d', 'e', 'l']);
        let path = parts[1].clone();
        Ok(ControlCommand::DeleteTags { path })
    } else {
        assert(w[0] != seq!['s', 'e', 't']);
        assert(w[0] != seq!['d', 'e', 'l']);
        Err(FsError::InvalidArgument)
    }
}

/// The inode that a path names, where it names one.
pub open spec fn resolved_id(m: Map<Seq<u8>, Seq<u8>>, path: Seq<char>) -> Option<u64> {
    match spec_resolve_path(m, path) {
        Some(Some(id)) => Some(id),
        _ => None,
    }
}

/// What a write of `data` to the control file does to the store `m0`
/// (leaving `m1`) and answers (`r`).
///
/// A malformed command is refused with `InvalidArgument` and changes
/// nothing. `set` replaces the tags of the file the path names; `del`
/// removes them, and answers `NotFound` when the path names nothing. Any
/// other failure is a store failure (`Io`).
pub open spec fn control_write_outcome(
    m0: Map<Seq<u8>, Seq<u8>>,
    m1: Map<Seq<u8>, Seq<u8>>,
    data: Seq<u8>,
    r: Result<(), FsError>,
) -> bool {
    match command_of_words(control_words(data)) {
        None => r == Err::<(), FsError>(FsError::InvalidArgument) && m1 == m0,
        Some(CommandView::SetTags(path, tags)) => {
            &&& r is Ok ==> resolved_id(m0, path) is Some && tags_set_to(
                m0,
                m1,
                resolved_id(m0, path).unwrap(),
                tags,
            )
            &&& r is Err ==> r == Err::<(), FsError>(FsError::Io)
            &&& resolved_id(m0, path) is None ==> r is Err
        },
        Some(CommandView::DeleteTags(path)) => {
            &&& r is Ok ==> resolved_id(m0, path) is Some && tags_of(
                m0,
                resolved_id(m0, path).unwrap(),
            ) is Some && tags_updated(
                m0,
                m1,
                resolved_id(m0, path).unwrap(),
                Seq::empty(),
                tags_of(m0, resolved_id(m0, path).unwrap()).unwrap(),
            )
            &&& r == Err::<(), FsError>(FsError::NotFound) ==> spec_resolve_path(m0, path) == Some(
                None::<u64>,
            ) && m1 == m0
            &&& r is Err ==> r == Err::<(), FsError>(FsError::NotFound) || r == Err::<(), FsError>(
                FsError::Io,
            )
            &&& resolved_id(m0, path) is None ==> r is Err
        },
    }
}

impl FileManager {
    /// Carries out a command written to the control file.
    pub fn handle_tagfs_control_write(&mut self, data: &[u8]) -> (r: Result<(), FsError>)
        ensures
            control_write_outcome(old(self)@, final(self)@, data@, r),
    {
        let command = match parse_control_command(data) {
            Ok(c) => c,
            Err(e) => return Err(e),
        };
        match command {
            ControlCommand::SetTags { path, tags } => {
                match self.set_file_tags_by_path(path.as_str(), tags) {
                    Ok(_) => Ok(()),
                    Err(_) => Err(FsError::Io),
                }
            },
            ControlCommand::DeleteTags { path } => {
                let found = match self.resolve_inode_by_path(path.as_str()) {
                    Ok(x) => x,
                    Err(_) => return Err(FsError::Io),
                };
                let inode_id = match found {
                    Some(id) => id,
                    None => return Err(FsError::NotFound),
                };
                match self.delete_file_tags(inode_id) {
                    Ok(()) => Ok(()),
                    Err(_) => Err(FsError::Io),
                }
            },
        }
    }
}

/// The snapshot name written to `.snapshots/.create`: the bytes as UTF-8
/// (invalid sequences replaced), trimmed; `InvalidArgument` when nothing is
/// left.
pub fn snapshot_name_from_write(data: &[u8]) -> (r: Result<String, FsError>)
    ensures
        match r {
            Ok(name) => name@ == str_trim(utf8_lossy(data@)) && name@.len() > 0,
            Err(e) => e == FsError::InvalidArgument && str_trim(utf8_lossy(data@)).len() == 0,
        },
{
    let text = string_from_utf8_lossy(data);
    let name = trim_str(text.as_str());
    if name.is_empty() {
        return Err(FsError::InvalidArgument);
    }
    Ok(String::from_str(name))
}

/// What a directory name created in the live tree asks for.
pub enum MkdirRequest {
    /// `.restore_<name>`: restore snapshot `name`.
    Restore(String),
    /// `.snap_<name>`: take snapshot `name`.
    Snapshot(String),
    /// Any other name: an ordinary directory.
    Plain,
}

/// What a new directory's name asks for: `.restore_` then a snapshot
/// name restores it, `.snap_` then a name takes a snapshot, and anything
/// else is an ordinary directory.
pub fn classify_mkdir_name(name: &str) -> (r: MkdirRequest)
    ensures
        match r {
            MkdirRequest::Restore(s) => name@ == seq!['.', 'r', 'e', 's', 't', 'o', 'r', 'e', '_'] + s@,
            MkdirRequest::Snapshot(s) => name@ == seq!['.', 's', 'n', 'a', 'p', '_'] + s@ && !(exists|s2: Seq<char>|
                name@ == seq!['.', 'r', 'e', 's', 't', 'o', 'r', 'e', '_'] + s2),
            MkdirRequest::Plain => !(exists|s2: Seq<char>|
                name@ == seq!['.', 'r', 'e', 's', 't', 'o', 'r', 'e', '_'] + s2) && !(exists|s2: Seq<char>|
                name@ == seq!['.', 's', 'n', 'a', 'p', '_'] + s2),
        },
{
    let restore = ".restore_";
    let snap = ".snap_";
    proof {
        reveal_strlit(".restore_");
        reveal_strlit(".snap_");
    }
    let ghost rp = seq!['.', 'r', 'e', 's', 't', 'o', 'r', 'e', '_'];
    let ghost sp = seq!['.', 's', 'n', 'a', 'p', '_'];
    assert(restore@ =~= rp);
    assert(snap@ =~= sp);
    let not_restore = match strip_prefix_text(name, restore) {
        Some(s) => return MkdirRequest::Restore(s),
        None => true,
    };
    assert(!(exists|s2: Seq<char>| name@ == rp + s2)) by {
        if exists|s2: Seq<char>| name@ == rp + s2 {
            let s2 = choose|s2: Seq<char>| name@ == rp + s2;
            assert(name@.take(rp.len() as int) =~= rp);
        }
    }
    match strip_prefix_text(name, snap) {
        Some(s) => MkdirRequest::Snapshot(s),
        None => {
            assert(!(exists|s2: Seq<char>| name@ == sp + s2)) by {
                if exists|s2: Seq<char>| name@ == sp + s2 {
                    let s2 = choose|s2: Seq<char>| name@ == sp + s2;
                    assert(name@.take(sp.len() as int) =~= sp);
                }
            }
            MkdirRequest::Plain
        },
    }
}

/// The candidates whose live name is `name`, in order.
pub open spec fn named_matches(ids: Seq<u64>, names: Seq<Option<Seq<char>>>, name: Seq<char>) -> Seq<u64>
    decreases ids.len(),
{
    if ids.len() == 0 || names.len() < ids.len() {
        Seq::empty()
    } else {
        let rest = named_matches(ids.drop_last(), names.take(ids.len() - 1), name);
        if names[ids.len() - 1] == Some(name) {
            rest.push(ids.last())
        } else {
            rest
        }
    }
}

/// The names as plain values.
pub open spec fn name_views(names: Seq<Option<String>>) -> Seq<Option<Seq<char>>> {
    names.map_values(|n: Option<String>| match n {
        Some(s) => Some(s@),
        None => None,
    })
}

/// The one candidate (of those a tag directory lists, `ids`, with their
/// live names, `names`) named `name`: `NotFound` when none is, and
/// `InvalidArgument` when several are.
pub fn unique_named_match(ids: &[u64], names: &[Option<String>], name: &str) -> (r: Result<u64, FsError>)
    requires
        ids@.len() == names@.len(),
    ensures
        ({
            let found = named_matches(ids@, name_views(names@), name@);
            &&& found.len() == 0 ==> r == Err::<u64, FsError>(FsError::NotFound)
            &&& found.len() == 1 ==> r == Ok::<u64, FsError>(found[0])
            &&& found.len() > 1 ==> r == Err::<u64, FsError>(FsError::InvalidArgument)
        }),
{
    let ghost nv = name_views(names@);
    let wanted = String::from_str(name);
    let mut found: Vec<u64> = Vec::new();
    let mut i: usize = 0;
    while i < ids.len()
        invariant
            i <= ids@.len(),
            ids@.len() == names@.len(),
            nv == name_views(names@),
            wanted@ == name@,
            found@ == named_matches(ids@.take(i as int), nv.take(i as int), name@),
        decreases ids@.len() - i,
    {
        proof {
            assert(ids@.take(i + 1).drop_last() =~= ids@.take(i as int));
            assert(nv.take(i + 1).take(i as int) =~= nv.take(i as int));
            assert(nv[i as int] == match names@[i as int] {
                Some(s) => Some(s@),
                None => None::<Seq<char>>,
            });
        }
        let hit = match &names[i] {
            Some(n) => {
                assert(names@[i as int] == Some(*n));
                assert(nv[i as int] == Some(n@));
                *n == wanted
            },
            None => {
                assert(nv[i as int] == None::<Seq<char>>);
                false
            },
        };
        assert(hit == (nv[i as int] == Some(name@)));
        assert(nv.take(i + 1)[i as int] == nv[i as int]);
        assert(ids@.take(i + 1)[i as int] == ids@[i as int]);
        if hit {
            found.push(ids[i]);
        }
        i = i + 1;
    }
    proof {
        assert(ids@.take(ids@.len() as int) =~= ids@);
        assert(nv.take(ids@.len() as int) =~= nv);
    }
    if found.len() == 0 {
        Err(FsError::NotFound)
    } else if found.len() == 1 {
        Ok(found[0])
    } else {
        Err(FsError::InvalidArgument)
    }
}

/// The number of 512-byte blocks that `size` bytes take up.
pub fn block_count(size: u64) -> (n: u64)
    ensures
        n == (size + 511) / 512,
{
    let q = size / 512;
    if size % 512 == 0 {
        q
    } else {
        q + 1
    }
}

} // verus!
