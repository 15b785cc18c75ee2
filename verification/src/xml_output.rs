//! The single-document output used when chunking is disabled: a file
//! map followed by the files grouped by folder.

use vstd::prelude::*;
use vstd::string::*;
use crate::strutil::{concat_all, dec_string, spec_dec};
use crate::tokenizer::{token_count_of, Tokenizer};
use crate::types::{FileContents, FileModel, files_view};
use crate::xmlesc::{
    attr_of, text_of, file_name_of, maybe_escape_attr, maybe_escape_text, file_name,
};

verus! {

/// The folder name as displayed: `.` for the empty folder.
pub open spec fn folder_display_of(folder: Seq<char>) -> Seq<char> {
    if folder.len() == 0 {
        "."@
    } else {
        folder
    }
}

/// One file-map row of the single document.
pub open spec fn xml_map_row(id: nat, f: FileModel, esc: bool) -> Seq<char> {
    "    <file id=\""@ + spec_dec(id) + "\" path=\""@ + attr_of(f.path, esc) + "\" tokens=\""@
        + spec_dec(token_count_of(text_of(f.contents, esc))) + "\" parts=\"1\"/>\n"@
}

/// All file-map rows.
pub open spec fn xml_map_rows(files: Seq<FileModel>, esc: bool) -> Seq<char> {
    concat_all(Seq::new(files.len(), |i: int| xml_map_row(i as nat, files[i], esc)))
}

/// One file's entry inside its folder group.
pub open spec fn xml_file_entry(f: FileModel, esc: bool) -> Seq<char> {
    "    <file-contents path=\""@ + attr_of(f.path, esc) + "\" name=\""@ + attr_of(
        file_name_of(f.path),
        esc,
    ) + "\">\n"@ + text_of(f.contents, esc) + "\n    </file-contents>\n"@
}

/// The folder-grouped body from file `i` on, given the folder group
/// currently open.
pub open spec fn xml_body_rec(
    files: Seq<FileModel>,
    i: int,
    current: Option<Seq<char>>,
    esc: bool,
) -> Seq<char>
    decreases files.len() - i,
{
    if i < 0 || i >= files.len() {
        match current {
            Some(_) => "  </folder>\n"@,
            None => Seq::empty(),
        }
    } else {
        let fd = folder_display_of(files[i].folder);
        let entry = xml_file_entry(files[i], esc);
        if current == Some(fd) {
            entry + xml_body_rec(files, i + 1, current, esc)
        } else {
            (match current {
                Some(_) => "  </folder>\n"@,
                None => Seq::empty(),
            }) + "  <folder path=\""@ + attr_of(fd, esc) + "\">\n"@ + entry + xml_body_rec(
                files,
                i + 1,
                Some(fd),
                esc,
            )
        }
    }
}

/// The whole single document.
pub open spec fn spec_build_xml(files: Seq<FileModel>, esc: bool) -> Seq<char> {
    "<shared-context>\n"@ + "  <file-map total-files=\""@ + spec_dec(files.len()) + "\">\n"@
        + xml_map_rows(files, esc) + "  </file-map>\n"@ + xml_body_rec(files, 0, None, esc)
        + "</shared-context>\n"@
}

/// The view of an optional folder name.
pub open spec fn opt_view(o: Option<String>) -> Option<Seq<char>> {
    match o {
        Some(s) => Some(s@),
        None => None,
    }
}

/// Builds the single document, grouping files by folder, without
/// escaping.
pub fn build_xml(files: &Vec<FileContents>, tok: &Tokenizer) -> (r: String)
    ensures
        r@ == spec_build_xml(files_view(files@), false),
{
    build_xml_with_escape(files, false, tok)
}

/// Appends every file-map row.
#[verifier::loop_isolation(false)]
fn append_map_rows(s: &mut String, files: &Vec<FileContents>, escape_xml: bool, tok: &Tokenizer)
    ensures
        final(s)@ == old(s)@ + xml_map_rows(files_view(files@), escape_xml),
{
    let ghost fv = files_view(files@);
    let ghost rows = Seq::new(fv.len(), |i: int| xml_map_row(i as nat, fv[i], escape_xml));
    let ghost s0 = s@;
    let n = files.len();
    let mut i: usize = 0;
    proof {
        assert(rows.take(0) =~= Seq::<Seq<char>>::empty());
    }
    while i < n
        invariant
            i <= n,
            s@ == s0 + concat_all(rows.take(i as int)),
        decreases n - i,
    {
        let f: &FileContents = &files[i];
        proof {
            assert(fv[i as int] == files@[i as int]@);
        }
        s.append("    <file id=\"");
        let d_id = dec_string(i);
        s.append(d_id.as_str());
        s.append("\" path=\"");
        let pa = maybe_escape_attr(f.path.as_str(), escape_xml);
        s.append(pa.as_str());
        s.append("\" tokens=\"");
        let contents = maybe_escape_text(f.contents.as_str(), escape_xml);
        let tokens = tok.count(contents.as_str());
        let d_t = dec_string(tokens);
        s.append(d_t.as_str());
        s.append("\" parts=\"1\"/>\n");
        proof {
            crate::strutil::lemma_concat_all_push(rows.take(i as int), rows[i as int]);
            assert(rows.take(i as int).push(rows[i as int]) =~= rows.take(i + 1));
            assert(s@ =~= s0 + concat_all(rows.take(i + 1)));
        }
        i = i + 1;
    }
    proof {
        assert(rows.take(n as int) =~= rows);
    }
}

/// Appends one file entry.
fn append_file_entry(s: &mut String, f: &FileContents, escape_xml: bool)
    ensures
        final(s)@ == old(s)@ + xml_file_entry(f@, escape_xml),
{
    s.append("    <file-contents path=\"");
    let pa = maybe_escape_attr(f.path.as_str(), escape_xml);
    s.append(pa.as_str());
    s.append("\" name=\"");
    let name = file_name(f.path.as_str());
    let na = maybe_escape_attr(name.as_str(), escape_xml);
    s.append(na.as_str());
    s.append("\">\n");
    let contents = maybe_escape_text(f.contents.as_str(), escape_xml);
    s.append(contents.as_str());
    s.append("\n    </file-contents>\n");
    proof {
        assert(s@ =~= old(s)@ + xml_file_entry(f@, escape_xml));
    }
}

/// Appends the folder-grouped body.
#[verifier::loop_isolation(false)]
#[verifier::rlimit(60)]
fn append_xml_body(s: &mut String, files: &Vec<FileContents>, escape_xml: bool)
    ensures
        final(s)@ == old(s)@ + xml_body_rec(files_view(files@), 0, None, escape_xml),
{
    let ghost fv = files_view(files@);
    let ghost body_total = xml_body_rec(fv, 0, None, escape_xml);
    let ghost s0 = s@;
    let n = files.len();
    let mut current: Option<String> = None;
    let mut j: usize = 0;
    while j < n
        invariant
            j <= n,
            s0 + body_total == s@ + xml_body_rec(fv, j as int, opt_view(current), escape_xml),
        decreases n - j,
    {
        let f: &FileContents = &files[j];
        proof {
            assert(fv[j as int] == files@[j as int]@);
        }
        let folder_display: String = if f.folder.as_str().unicode_len() == 0 {
            let d = String::new().concat(".");
            d
        } else {
            f.folder.clone()
        };
        proof {
            assert(folder_display@ == folder_display_of(fv[j as int].folder));
        }
        let ghost s_at_file = s@;
        let same = match &current {
            Some(c) => *c == folder_display,
            None => false,
        };
        if !same {
            match &current {
                Some(_) => {
                    s.append("  </folder>\n");
                },
                None => {},
            }
            s.append("  <folder path=\"");
            let fa = maybe_escape_attr(folder_display.as_str(), escape_xml);
            s.append(fa.as_str());
            s.append("\">\n");
        }
        append_file_entry(s, f, escape_xml);
        let ghost prev_cur = opt_view(current);
        if !same {
            current = Some(folder_display);
        }
        proof {
            let fd = folder_display_of(fv[j as int].folder);
            let entry = xml_file_entry(fv[j as int], escape_xml);
            if same {
                assert(prev_cur == Some(fd));
                assert(opt_view(current) == prev_cur);
                assert(xml_body_rec(fv, j as int, prev_cur, escape_xml) == entry + xml_body_rec(
                    fv,
                    j + 1,
                    opt_view(current),
                    escape_xml,
                ));
                assert(s@ =~= s_at_file + entry);
            } else {
                assert(prev_cur != Some(fd));
                assert(opt_view(current) == Some(fd));
                let closing = match prev_cur {
                    Some(_) => "  </folder>\n"@,
                    None => Seq::<char>::empty(),
                };
                assert(xml_body_rec(fv, j as int, prev_cur, escape_xml) == closing
                    + "  <folder path=\""@ + attr_of(fd, escape_xml) + "\">\n"@ + entry
                    + xml_body_rec(fv, j + 1, Some(fd), escape_xml));
                assert(s@ =~= s_at_file + closing + "  <folder path=\""@ + attr_of(
                    fd,
                    escape_xml,
                ) + "\">\n"@ + entry);
            }
            assert(s0 + body_total =~= s@ + xml_body_rec(
                fv,
                j + 1,
                opt_view(current),
                escape_xml,
            ));
        }
        j = j + 1;
    }
    match &current {
        Some(_) => {
            s.append("  </folder>\n");
        },
        None => {},
    }
    proof {
        assert(s@ =~= s0 + body_total);
    }
}

/// Builds the single document, grouping files by folder, with optional
/// escaping.
pub fn build_xml_with_escape(files: &Vec<FileContents>, escape_xml: bool, tok: &Tokenizer) -> (r:
    String)
    ensures
        r@ == spec_build_xml(files_view(files@), escape_xml),
{
    let ghost fv = files_view(files@);
    let mut s = String::new();
    s.append("<shared-context>\n");
    s.append("  <file-map total-files=\"");
    let d_n = dec_string(files.len());
    s.append(d_n.as_str());
    s.append("\">\n");
    append_map_rows(&mut s, files, escape_xml, tok);
    s.append("  </file-map>\n");
    append_xml_body(&mut s, files, escape_xml);
    s.append("</shared-context>\n");
    proof {
        assert(s@ =~= spec_build_xml(fv, escape_xml));
    }
    s
}

} // verus!
