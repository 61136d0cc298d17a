//! A metainfo as readable text, one field per line.

use vstd::prelude::*;
use vstd::string::StringExecFns;

use crate::convert::texts_view;
use crate::decimal::{decimal_chars, push_char, push_decimal_chars};
use crate::metainfo::{files_view, File, FileInfo, FileInfoModel, FileModel, MetaInfo, MetaInfoModel};

verus! {

/// `label`, `value` and a line break.
pub open spec fn text_line(label: Seq<char>, value: Seq<char>) -> Seq<char> {
    label + value + seq!['\n']
}

/// A line for an optional value; nothing when it is absent.
pub open spec fn opt_line(label: Seq<char>, o: Option<Seq<char>>) -> Seq<char> {
    match o {
        Some(v) => text_line(label, v),
        None => Seq::empty(),
    }
}

/// One `  - ` line per tracker of the announce list.
pub open spec fn announce_lines(l: Seq<Seq<char>>) -> Seq<char>
    decreases l.len(),
{
    if l.len() == 0 {
        Seq::empty()
    } else {
        announce_lines(l.drop_last()) + text_line("  - "@, l.last())
    }
}

/// The path of a file, each part after a `/`.
pub open spec fn path_text(ps: Seq<Seq<char>>) -> Seq<char>
    decreases ps.len(),
{
    if ps.len() == 0 {
        Seq::empty()
    } else {
        path_text(ps.drop_last()) + seq!['/'] + ps.last()
    }
}

/// The lines of one file of a multiple-file torrent.
pub open spec fn file_text(f: FileModel) -> Seq<char> {
    text_line("  - Length: "@, decimal_chars(f.length as nat)) + opt_line("    MD5 Sum: "@, f.md5sum) + "    Path: "@
        + path_text(f.paths) + seq!['\n']
}

/// The lines of every file, in order.
pub open spec fn files_text(fs: Seq<FileModel>) -> Seq<char>
    decreases fs.len(),
{
    if fs.len() == 0 {
        Seq::empty()
    } else {
        files_text(fs.drop_last()) + file_text(fs.last())
    }
}

/// The files of a torrent as text.
pub open spec fn file_info_text(fi: FileInfoModel) -> Seq<char> {
    match fi {
        FileInfoModel::SingleFile { length, md5sum } => text_line("Length: "@, decimal_chars(length as nat)) + opt_line(
            "MD5 Sum: "@,
            md5sum,
        ),
        FileInfoModel::MultipleFile { files } => "Files:\n"@ + files_text(files),
    }
}

/// A metainfo as text: its fields one per line, absent ones left out, the
/// number of pieces (20 bytes of `pieces` each), and the files.
pub open spec fn metainfo_text(m: MetaInfoModel) -> Seq<char> {
    text_line("Announce: "@, m.announce) + match m.announce_list {
        Some(l) => "Announce List:\n"@ + announce_lines(l),
        None => Seq::empty(),
    } + opt_line("Creation Date: "@, m.creation_date) + opt_line("Comment: "@, m.comment) + opt_line(
        "Created By: "@,
        m.created_by,
    ) + opt_line("Encoding: "@, m.encoding) + opt_line("Private: "@, m.private) + text_line(
        "Piece Length: "@,
        decimal_chars(m.piece_length as nat),
    ) + text_line("Length: "@, decimal_chars(m.pieces.len() / 20)) + text_line("Name: "@, m.name) + text_line(
        "Info Hash: "@,
        m.info_hash,
    ) + text_line("File Info: "@, file_info_text(m.file_info))
}

fn push_line(s: &mut String, label: &str, value: &str)
    ensures
        final(s)@ == old(s)@ + text_line(label@, value@),
{
    s.append(label);
    s.append(value);
    push_char(s, '\n');
    assert(final(s)@ =~= old(s)@ + text_line(label@, value@));
}

fn push_opt_line(s: &mut String, label: &str, value: &Option<String>)
    ensures
        final(s)@ == old(s)@ + opt_line(label@, crate::convert::opt_text_view(*value)),
{
    match value {
        Some(v) => push_line(s, label, v.as_str()),
        None => {
            assert(old(s)@ + Seq::<char>::empty() =~= old(s)@);
        },
    }
}

fn push_number_line(s: &mut String, label: &str, n: usize)
    ensures
        final(s)@ == old(s)@ + text_line(label@, decimal_chars(n as nat)),
{
    s.append(label);
    push_decimal_chars(s, n as u128);
    push_char(s, '\n');
    assert(final(s)@ =~= old(s)@ + text_line(label@, decimal_chars(n as nat)));
}

impl File {
    /// This file's lines in the text of a metainfo.
    pub fn to_string(&self) -> (r: String)
        ensures
            r@ == file_text(self@),
    {
        let mut s = String::new();
        push_number_line(&mut s, "  - Length: ", self.length());
        push_opt_line(&mut s, "    MD5 Sum: ", self.md5sum());
        s.append("    Path: ");
        let paths = self.paths();
        let ghost pv = texts_view(paths@);
        let ghost start = s@;
        let mut i: usize = 0;
        while i < paths.len()
            invariant
                i <= paths@.len(),
                pv == texts_view(paths@),
                s@ == start + path_text(pv.subrange(0, i as int)),
            decreases paths@.len() - i,
        {
            push_char(&mut s, '/');
            s.append(paths[i].as_str());
            proof {
                let t = pv.subrange(0, i + 1);
                assert(t.drop_last() =~= pv.subrange(0, i as int));
                assert(t.last() == paths@[i as int]@);
            }
            i = i + 1;
            assert(s@ =~= start + path_text(pv.subrange(0, i as int)));
        }
        push_char(&mut s, '\n');
        proof {
            assert(pv.subrange(0, paths@.len() as int) =~= pv);
            assert(s@ =~= file_text(self@));
        }
        s
    }
}

impl FileInfo {
    /// The files as text.
    pub fn to_string(&self) -> (r: String)
        ensures
            r@ == file_info_text(self@),
    {
        let mut s = String::new();
        match self {
            FileInfo::SingleFile { length, md5sum } => {
                push_number_line(&mut s, "Length: ", *length);
                push_opt_line(&mut s, "MD5 Sum: ", md5sum);
                assert(s@ =~= file_info_text(self@));
            },
            FileInfo::MultipleFile { files } => {
                s.append("Files:\n");
                let ghost fv = files_view(files@);
                let ghost start = s@;
                let mut i: usize = 0;
                while i < files.len()
                    invariant
                        i <= files@.len(),
                        fv == files_view(files@),
                        s@ == start + files_text(fv.subrange(0, i as int)),
                    decreases files@.len() - i,
                {
                    let t = files[i].to_string();
                    s.append(t.as_str());
                    proof {
                        let u = fv.subrange(0, i + 1);
                        assert(u.drop_last() =~= fv.subrange(0, i as int));
                        assert(u.last() == files@[i as int]@);
                    }
                    i = i + 1;
                    assert(s@ =~= start + files_text(fv.subrange(0, i as int)));
                }
                proof {
                    assert(fv.subrange(0, files@.len() as int) =~= fv);
                    assert(s@ =~= file_info_text(self@));
                }
            },
        }
        s
    }
}

impl MetaInfo {
    /// This metainfo as text, one field per line.
    #[verifier::rlimit(40)]
    pub fn to_string(&self) -> (r: String)
        ensures
            r@ == metainfo_text(self@),
    {
        let mut s = String::new();
        push_line(&mut s, "Announce: ", self.announce.as_str());
        let ghost after_announce = s@;
        match &self.announce_list {
            Some(list) => {
                s.append("Announce List:\n");
                let ghost lv = texts_view(list@);
                let ghost start = s@;
                let mut i: usize = 0;
                while i < list.len()
                    invariant
                        i <= list@.len(),
                        lv == texts_view(list@),
                        s@ == start + announce_lines(lv.subrange(0, i as int)),
                    decreases list@.len() - i,
                {
                    push_line(&mut s, "  - ", list[i].as_str());
                    proof {
                        let u = lv.subrange(0, i + 1);
                        assert(u.drop_last() =~= lv.subrange(0, i as int));
                        assert(u.last() == list@[i as int]@);
                    }
                    i = i + 1;
                    assert(s@ =~= start + announce_lines(lv.subrange(0, i as int)));
                }
                proof {
                    assert(lv.subrange(0, list@.len() as int) =~= lv);
                }
            },
            None => {},
        }
        let ghost after_list = s@;
        push_opt_line(&mut s, "Creation Date: ", &self.creation_date);
        push_opt_line(&mut s, "Comment: ", &self.comment);
        push_opt_line(&mut s, "Created By: ", &self.created_by);
        push_opt_line(&mut s, "Encoding: ", &self.encoding);
        push_opt_line(&mut s, "Private: ", &self.private);
        push_number_line(&mut s, "Piece Length: ", self.piece_length);
        push_number_line(&mut s, "Length: ", self.pieces.len() / 20);
        push_line(&mut s, "Name: ", self.name.as_str());
        push_line(&mut s, "Info Hash: ", self.info_hash.as_str());
        let fi = self.file_info.to_string();
        push_line(&mut s, "File Info: ", fi.as_str());
        proof {
            assert(s@ =~= metainfo_text(self@));
        }
        s
    }
}

// ----- laws of the text form -----

/// `label`, the value and a line break when the value is present; nothing
/// otherwise.
pub open spec fn labelled_line(label: Seq<char>, value: Option<Seq<char>>) -> Seq<char> {
    match value {
        Some(c) => label + c + seq!['\n'],
        None => Seq::empty(),
    }
}

/// `t` is `x`, then `mid`, then `y`.
pub open spec fn splits(t: Seq<char>, x: Seq<char>, mid: Seq<char>, y: Seq<char>) -> bool {
    t == x + mid + y
}

/// The text of a metainfo holds the creation date line, `Creation Date: ` and the value,
/// when the value is present, and nothing for it otherwise: two metainfos
/// that differ only in their creation date have texts that differ only there.
#[verifier::rlimit(40)]
pub proof fn lemma_creation_date_line(m1: MetaInfoModel, m2: MetaInfoModel)
    requires
        m2.announce == m1.announce,
        m2.announce_list == m1.announce_list,
        m2.comment == m1.comment,
        m2.created_by == m1.created_by,
        m2.encoding == m1.encoding,
        m2.piece_length == m1.piece_length,
        m2.pieces == m1.pieces,
        m2.private == m1.private,
        m2.name == m1.name,
        m2.info_hash == m1.info_hash,
        m2.file_info == m1.file_info,
    ensures
        exists|x: Seq<char>, y: Seq<char>|
            #[trigger] splits(metainfo_text(m1), x, labelled_line("Creation Date: "@, m1.creation_date), y) && splits(
                metainfo_text(m2), x, labelled_line("Creation Date: "@, m2.creation_date), y),
{
    let x = (text_line("Announce: "@, m1.announce)) + (match m1.announce_list { Some(l) => "Announce List:\n"@ + announce_lines(l), None => Seq::<char>::empty() });
    let y = (opt_line("Comment: "@, m1.comment)) + (opt_line("Created By: "@, m1.created_by)) + (opt_line("Encoding: "@, m1.encoding)) + (opt_line("Private: "@, m1.private)) + (text_line("Piece Length: "@, decimal_chars(m1.piece_length as nat))) + (text_line("Length: "@, decimal_chars(m1.pieces.len() / 20))) + (text_line("Name: "@, m1.name)) + (text_line("Info Hash: "@, m1.info_hash)) + (text_line("File Info: "@, file_info_text(m1.file_info)));
    assert(metainfo_text(m1) =~= x + opt_line("Creation Date: "@, m1.creation_date) + y);
    assert(metainfo_text(m2) =~= x + opt_line("Creation Date: "@, m2.creation_date) + y);
    assert(opt_line("Creation Date: "@, m1.creation_date) =~= (labelled_line("Creation Date: "@, m1.creation_date)));
    assert(opt_line("Creation Date: "@, m2.creation_date) =~= (labelled_line("Creation Date: "@, m2.creation_date)));
    assert(splits(metainfo_text(m1), x, labelled_line("Creation Date: "@, m1.creation_date), y));
}

/// The text of a metainfo holds the comment line, `Comment: ` and the value,
/// when the value is present, and nothing for it otherwise: two metainfos
/// that differ only in their comment have texts that differ only there.
#[verifier::rlimit(40)]
pub proof fn lemma_comment_line(m1: MetaInfoModel, m2: MetaInfoModel)
    requires
        m2.announce == m1.announce,
        m2.announce_list == m1.announce_list,
        m2.creation_date == m1.creation_date,
        m2.created_by == m1.created_by,
        m2.encoding == m1.encoding,
        m2.piece_length == m1.piece_length,
        m2.pieces == m1.pieces,
        m2.private == m1.private,
        m2.name == m1.name,
        m2.info_hash == m1.info_hash,
        m2.file_info == m1.file_info,
    ensures
        exists|x: Seq<char>, y: Seq<char>|
            #[trigger] splits(metainfo_text(m1), x, labelled_line("Comment: "@, m1.comment), y) && splits(
                metainfo_text(m2), x, labelled_line("Comment: "@, m2.comment), y),
{
    let x = (text_line("Announce: "@, m1.announce)) + (match m1.announce_list { Some(l) => "Announce List:\n"@ + announce_lines(l), None => Seq::<char>::empty() }) + (opt_line("Creation Date: "@, m1.creation_date));
    let y = (opt_line("Created By: "@, m1.created_by)) + (opt_line("Encoding: "@, m1.encoding)) + (opt_line("Private: "@, m1.private)) + (text_line("Piece Length: "@, decimal_chars(m1.piece_length as nat))) + (text_line("Length: "@, decimal_chars(m1.pieces.len() / 20))) + (text_line("Name: "@, m1.name)) + (text_line("Info Hash: "@, m1.info_hash)) + (text_line("File Info: "@, file_info_text(m1.file_info)));
    assert(metainfo_text(m1) =~= x + opt_line("Comment: "@, m1.comment) + y);
    assert(metainfo_text(m2) =~= x + opt_line("Comment: "@, m2.comment) + y);
    assert(opt_line("Comment: "@, m1.comment) =~= (labelled_line("Comment: "@, m1.comment)));
    assert(opt_line("Comment: "@, m2.comment) =~= (labelled_line("Comment: "@, m2.comment)));
    assert(splits(metainfo_text(m1), x, labelled_line("Comment: "@, m1.comment), y));
}

/// The text of a metainfo holds the created by line, `Created By: ` and the value,
/// when the value is present, and nothing for it otherwise: two metainfos
/// that differ only in their created by have texts that differ only there.
#[verifier::rlimit(40)]
pub proof fn lemma_created_by_line(m1: MetaInfoModel, m2: MetaInfoModel)
    requires
        m2.announce == m1.announce,
        m2.announce_list == m1.announce_list,
        m2.creation_date == m1.creation_date,
        m2.comment == m1.comment,
        m2.encoding == m1.encoding,
        m2.piece_length == m1.piece_length,
        m2.pieces == m1.pieces,
        m2.private == m1.private,
        m2.name == m1.name,
        m2.info_hash == m1.info_hash,
        m2.file_info == m1.file_info,
    ensures
        exists|x: Seq<char>, y: Seq<char>|
            #[trigger] splits(metainfo_text(m1), x, labelled_line("Created By: "@, m1.created_by), y) && splits(
                metainfo_text(m2), x, labelled_line("Created By: "@, m2.created_by), y),
{
    let x = (text_line("Announce: "@, m1.announce)) + (match m1.announce_list { Some(l) => "Announce List:\n"@ + announce_lines(l), None => Seq::<char>::empty() }) + (opt_line("Creation Date: "@, m1.creation_date)) + (opt_line("Comment: "@, m1.comment));
    let y = (opt_line("Encoding: "@, m1.encoding)) + (opt_line("Private: "@, m1.private)) + (text_line("Piece Length: "@, decimal_chars(m1.piece_length as nat))) + (text_line("Length: "@, decimal_chars(m1.pieces.len() / 20))) + (text_line("Name: "@, m1.name)) + (text_line("Info Hash: "@, m1.info_hash)) + (text_line("File Info: "@, file_info_text(m1.file_info)));
    assert(metainfo_text(m1) =~= x + opt_line("Created By: "@, m1.created_by) + y);
    assert(metainfo_text(m2) =~= x + opt_line("Created By: "@, m2.created_by) + y);
    assert(opt_line("Created By: "@, m1.created_by) =~= (labelled_line("Created By: "@, m1.created_by)));
    assert(opt_line("Created By: "@, m2.created_by) =~= (labelled_line("Created By: "@, m2.created_by)));
    assert(splits(metainfo_text(m1), x, labelled_line("Created By: "@, m1.created_by), y));
}

/// The text of a metainfo holds the encoding line, `Encoding: ` and the value,
/// when the value is present, and nothing for it otherwise: two metainfos
/// that differ only in their encoding have texts that differ only there.
#[verifier::rlimit(40)]
pub proof fn lemma_encoding_line(m1: MetaInfoModel, m2: MetaInfoModel)
    requires
        m2.announce == m1.announce,
        m2.announce_list == m1.announce_list,
        m2.creation_date == m1.creation_date,
        m2.comment == m1.comment,
        m2.created_by == m1.created_by,
        m2.piece_length == m1.piece_length,
        m2.pieces == m1.pieces,
        m2.private == m1.private,
        m2.name == m1.name,
        m2.info_hash == m1.info_hash,
        m2.file_info == m1.file_info,
    ensures
        exists|x: Seq<char>, y: Seq<char>|
            #[trigger] splits(metainfo_text(m1), x, labelled_line("Encoding: "@, m1.encoding), y) && splits(
                metainfo_text(m2), x, labelled_line("Encoding: "@, m2.encoding), y),
{
    let x = (text_line("Announce: "@, m1.announce)) + (match m1.announce_list { Some(l) => "Announce List:\n"@ + announce_lines(l), None => Seq::<char>::empty() }) + (opt_line("Creation Date: "@, m1.creation_date)) + (opt_line("Comment: "@, m1.comment)) + (opt_line("Created By: "@, m1.created_by));
    let y = (opt_line("Private: "@, m1.private)) + (text_line("Piece Length: "@, decimal_chars(m1.piece_length as nat))) + (text_line("Length: "@, decimal_chars(m1.pieces.len() / 20))) + (text_line("Name: "@, m1.name)) + (text_line("Info Hash: "@, m1.info_hash)) + (text_line("File Info: "@, file_info_text(m1.file_info)));
    assert(metainfo_text(m1) =~= x + opt_line("Encoding: "@, m1.encoding) + y);
    assert(metainfo_text(m2) =~= x + opt_line("Encoding: "@, m2.encoding) + y);
    assert(opt_line("Encoding: "@, m1.encoding) =~= (labelled_line("Encoding: "@, m1.encoding)));
    assert(opt_line("Encoding: "@, m2.encoding) =~= (labelled_line("Encoding: "@, m2.encoding)));
    assert(splits(metainfo_text(m1), x, labelled_line("Encoding: "@, m1.encoding), y));
}

/// The text of a metainfo holds the private line, `Private: ` and the value,
/// when the value is present, and nothing for it otherwise: two metainfos
/// that differ only in their private have texts that differ only there.
#[verifier::rlimit(40)]
pub proof fn lemma_private_line(m1: MetaInfoModel, m2: MetaInfoModel)
    requires
        m2.announce == m1.announce,
        m2.announce_list == m1.announce_list,
        m2.creation_date == m1.creation_date,
        m2.comment == m1.comment,
        m2.created_by == m1.created_by,
        m2.encoding == m1.encoding,
        m2.piece_length == m1.piece_length,
        m2.pieces == m1.pieces,
        m2.name == m1.name,
        m2.info_hash == m1.info_hash,
        m2.file_info == m1.file_info,
    ensures
        exists|x: Seq<char>, y: Seq<char>|
            #[trigger] splits(metainfo_text(m1), x, labelled_line("Private: "@, m1.private), y) && splits(
                metainfo_text(m2), x, labelled_line("Private: "@, m2.private), y),
{
    let x = (text_line("Announce: "@, m1.announce)) + (match m1.announce_list { Some(l) => "Announce List:\n"@ + announce_lines(l), None => Seq::<char>::empty() }) + (opt_line("Creation Date: "@, m1.creation_date)) + (opt_line("Comment: "@, m1.comment)) + (opt_line("Created By: "@, m1.created_by)) + (opt_line("Encoding: "@, m1.encoding));
    let y = (text_line("Piece Length: "@, decimal_chars(m1.piece_length as nat))) + (text_line("Length: "@, decimal_chars(m1.pieces.len() / 20))) + (text_line("Name: "@, m1.name)) + (text_line("Info Hash: "@, m1.info_hash)) + (text_line("File Info: "@, file_info_text(m1.file_info)));
    assert(metainfo_text(m1) =~= x + opt_line("Private: "@, m1.private) + y);
    assert(metainfo_text(m2) =~= x + opt_line("Private: "@, m2.private) + y);
    assert(opt_line("Private: "@, m1.private) =~= (labelled_line("Private: "@, m1.private)));
    assert(opt_line("Private: "@, m2.private) =~= (labelled_line("Private: "@, m2.private)));
    assert(splits(metainfo_text(m1), x, labelled_line("Private: "@, m1.private), y));
}

/// The text of a metainfo holds the announce line, `Announce: ` and the value:
/// two metainfos that differ only in their announce have texts that differ
/// only there.
#[verifier::rlimit(40)]
pub proof fn lemma_announce_line(m1: MetaInfoModel, m2: MetaInfoModel)
    requires
        m2.announce_list == m1.announce_list,
        m2.creation_date == m1.creation_date,
        m2.comment == m1.comment,
        m2.created_by == m1.created_by,
        m2.encoding == m1.encoding,
        m2.piece_length == m1.piece_length,
        m2.pieces == m1.pieces,
        m2.private == m1.private,
        m2.name == m1.name,
        m2.info_hash == m1.info_hash,
        m2.file_info == m1.file_info,
    ensures
        exists|x: Seq<char>, y: Seq<char>|
            #[trigger] splits(metainfo_text(m1), x, labelled_line("Announce: "@, Some(m1.announce)), y) && splits(
                metainfo_text(m2), x, labelled_line("Announce: "@, Some(m2.announce)), y),
{
    let x = Seq::<char>::empty();
    let y = (match m1.announce_list { Some(l) => "Announce List:\n"@ + announce_lines(l), None => Seq::<char>::empty() }) + (opt_line("Creation Date: "@, m1.creation_date)) + (opt_line("Comment: "@, m1.comment)) + (opt_line("Created By: "@, m1.created_by)) + (opt_line("Encoding: "@, m1.encoding)) + (opt_line("Private: "@, m1.private)) + (text_line("Piece Length: "@, decimal_chars(m1.piece_length as nat))) + (text_line("Length: "@, decimal_chars(m1.pieces.len() / 20))) + (text_line("Name: "@, m1.name)) + (text_line("Info Hash: "@, m1.info_hash)) + (text_line("File Info: "@, file_info_text(m1.file_info)));
    assert(metainfo_text(m1) =~= x + text_line("Announce: "@, m1.announce) + y);
    assert(metainfo_text(m2) =~= x + text_line("Announce: "@, m2.announce) + y);
    assert(splits(metainfo_text(m1), x, labelled_line("Announce: "@, Some(m1.announce)), y));
}

/// The text of a metainfo holds the name line, `Name: ` and the value:
/// two metainfos that differ only in their name have texts that differ
/// only there.
#[verifier::rlimit(40)]
pub proof fn lemma_name_line(m1: MetaInfoModel, m2: MetaInfoModel)
    requires
        m2.announce == m1.announce,
        m2.announce_list == m1.announce_list,
        m2.creation_date == m1.creation_date,
        m2.comment == m1.comment,
        m2.created_by == m1.created_by,
        m2.encoding == m1.encoding,
        m2.piece_length == m1.piece_length,
        m2.pieces == m1.pieces,
        m2.private == m1.private,
        m2.info_hash == m1.info_hash,
        m2.file_info == m1.file_info,
    ensures
        exists|x: Seq<char>, y: Seq<char>|
            #[trigger] splits(metainfo_text(m1), x, labelled_line("Name: "@, Some(m1.name)), y) && splits(
                metainfo_text(m2), x, labelled_line("Name: "@, Some(m2.name)), y),
{
    let x = (text_line("Announce: "@, m1.announce)) + (match m1.announce_list { Some(l) => "Announce List:\n"@ + announce_lines(l), None => Seq::<char>::empty() }) + (opt_line("Creation Date: "@, m1.creation_date)) + (opt_line("Comment: "@, m1.comment)) + (opt_line("Created By: "@, m1.created_by)) + (opt_line("Encoding: "@, m1.encoding)) + (opt_line("Private: "@, m1.private)) + (text_line("Piece Length: "@, decimal_chars(m1.piece_length as nat))) + (text_line("Length: "@, decimal_chars(m1.pieces.len() / 20)));
    let y = (text_line("Info Hash: "@, m1.info_hash)) + (text_line("File Info: "@, file_info_text(m1.file_info)));
    assert(metainfo_text(m1) =~= x + text_line("Name: "@, m1.name) + y);
    assert(metainfo_text(m2) =~= x + text_line("Name: "@, m2.name) + y);
    assert(splits(metainfo_text(m1), x, labelled_line("Name: "@, Some(m1.name)), y));
}

/// The text of a metainfo holds the info hash line, `Info Hash: ` and the value:
/// two metainfos that differ only in their info hash have texts that differ
/// only there.
#[verifier::rlimit(40)]
pub proof fn lemma_info_hash_line(m1: MetaInfoModel, m2: MetaInfoModel)
    requires
        m2.announce == m1.announce,
        m2.announce_list == m1.announce_list,
        m2.creation_date == m1.creation_date,
        m2.comment == m1.comment,
        m2.created_by == m1.created_by,
        m2.encoding == m1.encoding,
        m2.piece_length == m1.piece_length,
        m2.pieces == m1.pieces,
        m2.private == m1.private,
        m2.name == m1.name,
        m2.file_info == m1.file_info,
    ensures
        exists|x: Seq<char>, y: Seq<char>|
            #[trigger] splits(metainfo_text(m1), x, labelled_line("Info Hash: "@, Some(m1.info_hash)), y) && splits(
                metainfo_text(m2), x, labelled_line("Info Hash: "@, Some(m2.info_hash)), y),
{
    let x = (text_line("Announce: "@, m1.announce)) + (match m1.announce_list { Some(l) => "Announce List:\n"@ + announce_lines(l), None => Seq::<char>::empty() }) + (opt_line("Creation Date: "@, m1.creation_date)) + (opt_line("Comment: "@, m1.comment)) + (opt_line("Created By: "@, m1.created_by)) + (opt_line("Encoding: "@, m1.encoding)) + (opt_line("Private: "@, m1.private)) + (text_line("Piece Length: "@, decimal_chars(m1.piece_length as nat))) + (text_line("Length: "@, decimal_chars(m1.pieces.len() / 20))) + (text_line("Name: "@, m1.name));
    let y = (text_line("File Info: "@, file_info_text(m1.file_info)));
    assert(metainfo_text(m1) =~= x + text_line("Info Hash: "@, m1.info_hash) + y);
    assert(metainfo_text(m2) =~= x + text_line("Info Hash: "@, m2.info_hash) + y);
    assert(splits(metainfo_text(m1), x, labelled_line("Info Hash: "@, Some(m1.info_hash)), y));
}

/// The text of a metainfo holds the piece length line, `Piece Length: ` and the value:
/// two metainfos that differ only in their piece length have texts that differ
/// only there.
#[verifier::rlimit(40)]
pub proof fn lemma_piece_length_line(m1: MetaInfoModel, m2: MetaInfoModel)
    requires
        m2.announce == m1.announce,
        m2.announce_list == m1.announce_list,
        m2.creation_date == m1.creation_date,
        m2.comment == m1.comment,
        m2.created_by == m1.created_by,
        m2.encoding == m1.encoding,
        m2.pieces == m1.pieces,
        m2.private == m1.private,
        m2.name == m1.name,
        m2.info_hash == m1.info_hash,
        m2.file_info == m1.file_info,
    ensures
        exists|x: Seq<char>, y: Seq<char>|
            #[trigger] splits(metainfo_text(m1), x, labelled_line("Piece Length: "@, Some(decimal_chars(m1.piece_length as nat))), y) && splits(
                metainfo_text(m2), x, labelled_line("Piece Length: "@, Some(decimal_chars(m2.piece_length as nat))), y),
{
    let x = (text_line("Announce: "@, m1.announce)) + (match m1.announce_list { Some(l) => "Announce List:\n"@ + announce_lines(l), None => Seq::<char>::empty() }) + (opt_line("Creation Date: "@, m1.creation_date)) + (opt_line("Comment: "@, m1.comment)) + (opt_line("Created By: "@, m1.created_by)) + (opt_line("Encoding: "@, m1.encoding)) + (opt_line("Private: "@, m1.private));
    let y = (text_line("Length: "@, decimal_chars(m1.pieces.len() / 20))) + (text_line("Name: "@, m1.name)) + (text_line("Info Hash: "@, m1.info_hash)) + (text_line("File Info: "@, file_info_text(m1.file_info)));
    assert(metainfo_text(m1) =~= x + text_line("Piece Length: "@, decimal_chars(m1.piece_length as nat)) + y);
    assert(metainfo_text(m2) =~= x + text_line("Piece Length: "@, decimal_chars(m2.piece_length as nat)) + y);
    assert(splits(metainfo_text(m1), x, labelled_line("Piece Length: "@, Some(decimal_chars(m1.piece_length as nat))), y));
}

} // verus!
