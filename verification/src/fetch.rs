//! Names of the structure files held by the remote repository.

use vstd::prelude::*;
use vstd::string::*;

verus! {

/// The kinds of structure file.
#[derive(Debug, Copy, Clone, PartialEq, Eq, Structural)]
pub enum FileKind {
    Pdb,
    Cif,
}

/// The extension of a structure file of a kind, compressed or not.
pub open spec fn extension_of(kind: FileKind, compress: bool) -> Seq<char> {
    match kind {
        FileKind::Pdb => if compress {
            "pdb.gz"@
        } else {
            "pdb"@
        },
        FileKind::Cif => if compress {
            "cif.gz"@
        } else {
            "cif"@
        },
    }
}

/// Where the repository holds its files.
pub open spec fn download_base() -> Seq<char> {
    "https://files.rcsb.org/download/"@
}

/// The extension of a structure file of a kind, compressed or not.
pub fn extension(kind: FileKind, compress: bool) -> (r: &'static str)
    ensures
        r@ == extension_of(kind, compress),
{
    match kind {
        FileKind::Pdb => if compress {
            "pdb.gz"
        } else {
            "pdb"
        },
        FileKind::Cif => if compress {
            "cif.gz"
        } else {
            "cif"
        },
    }
}

/// The name of the file of a structure: its name, a point, and the extension.
pub fn file_name(name: &str, ext: &str) -> (r: String)
    ensures
        r@ == name@ + seq!['.'] + ext@,
{
    let mut path = String::new();
    path.append(name);
    proof {
        reveal_strlit(".");
        assert("."@ =~= seq!['.']);
        assert(Seq::<char>::empty() + name@ =~= name@);
    }
    path.append(".");
    path.append(ext);
    path
}

/// The address from which a file is fetched.
pub fn download_url(path: &str) -> (r: String)
    ensures
        r@ == download_base() + path@,
{
    let mut url = String::new();
    url.append("https://files.rcsb.org/download/");
    proof {
        assert(Seq::<char>::empty() + download_base() =~= download_base());
    }
    url.append(path);
    url
}

} // verus!
