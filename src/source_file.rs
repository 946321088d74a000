use vstd::prelude::*;
use vstd::string::StringSliceAdditionalSpecFns;
use vstd::utf8::encode_utf8;

use crate::lexer::{classified_stream, start_state};
use crate::source::SourceString;
use crate::token::{type_of, Token, TokenType};

verus! {

/// An assembly source file: where it was found and what it holds.
pub struct SourceFile {
    id: i32,
    path: String,
    filename: String,
    contents: String,
}

impl SourceFile {
    #[verifier::type_invariant]
    spec fn inv(self) -> bool {
        encode_utf8(self.contents@).len() < usize::MAX
    }

    /// Identifier used in diagnostics.
    pub closed spec fn id_view(&self) -> i32 {
        self.id
    }

    /// Directory of the file.
    pub closed spec fn path_view(&self) -> Seq<char> {
        self.path@
    }

    /// Name of the file without its directory.
    pub closed spec fn filename_view(&self) -> Seq<char> {
        self.filename@
    }

    /// Text of the file.
    pub closed spec fn contents_view(&self) -> Seq<char> {
        self.contents@
    }

    /// A file with the directory `path`, the name `filename` and the text
    /// `contents`.
    pub fn new(path: &str, filename: &str, contents: &str) -> (r: SourceFile)
        requires
            contents.spec_bytes().len() < usize::MAX,
        ensures
            r.id_view() == 0,
            r.path_view() == path@,
            r.filename_view() == filename@,
            r.contents_view() == contents@,
    {
        SourceFile {
            id: 0,
            path: String::from_str(path),
            filename: String::from_str(filename),
            contents: String::from_str(contents),
        }
    }

    pub fn id(&self) -> (r: i32)
        ensures
            r == self.id_view(),
    {
        self.id
    }

    pub fn set_id(&mut self, id: i32)
        ensures
            final(self).id_view() == id,
    {
        proof {
            use_type_invariant(&*self);
        }
        self.id = id;
    }

    /// Directory of the file.
    pub fn path(&self) -> (r: &str)
        ensures
            r@ == self.path_view(),
    {
        self.path.as_str()
    }

    /// Name of the file without its directory.
    pub fn filename(&self) -> (r: &str)
        ensures
            r@ == self.filename_view(),
    {
        self.filename.as_str()
    }

    /// Classified tokens of the file, up to and including the first `Eof`
    /// or `Error`.
    pub fn parse(&self) -> (r: Vec<Token>)
        ensures
            classified_stream(encode_utf8(self.contents_view()), start_state(0), r@),
            r@.len() >= 1,
            r@.last() == Token::Eof || type_of(r@.last()) == TokenType::Error,
            forall|i: int|
                0 <= i < r@.len() - 1 ==> r@[i] != Token::Eof && type_of(r@[i])
                    != TokenType::Error,
    {
        proof {
            use_type_invariant(self);
        }
        let text = self.contents.as_str();
        SourceString::new(self.filename.as_str(), text).parse()
    }
}

/// Joins parsed source files.
pub struct Linker;

impl Linker {
    /// Resets the identifier of every file.
    pub fn init_files(files: &mut Vec<SourceFile>)
        ensures
            final(files)@.len() == old(files)@.len(),
            forall|i: int| 0 <= i < final(files)@.len() ==> (#[trigger] final(files)@[i]).id_view() == 0,
    {
        Linker::number_files(files, 0);
    }

    /// Marks every file as linked.
    pub fn link_files(files: &mut Vec<SourceFile>)
        ensures
            final(files)@.len() == old(files)@.len(),
            forall|i: int| 0 <= i < final(files)@.len() ==> (#[trigger] final(files)@[i]).id_view() == 1,
    {
        Linker::number_files(files, 1);
    }

    fn number_files(files: &mut Vec<SourceFile>, id: i32)
        ensures
            final(files)@.len() == old(files)@.len(),
            forall|i: int| 0 <= i < final(files)@.len() ==> (#[trigger] final(files)@[i]).id_view() == id,
    {
        let mut i: usize = 0;
        while i < files.len()
            invariant
                i <= files@.len(),
                files@.len() == old(files)@.len(),
                forall|j: int| 0 <= j < i ==> (#[trigger] files@[j]).id_view() == id,
            decreases files@.len() - i,
        {
            files[i].set_id(id);
            i = i + 1;
        }
    }
}

} // verus!
