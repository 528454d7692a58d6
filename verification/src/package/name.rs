//! Package names: `author/project`, with the rules that both parts obey.

use crate::text::{
    chars_of, lemma_lex_order, lemma_split_in_two, lex_less, split, split_chars, str_equal, str_less,
};
use std::str::FromStr;
use vstd::prelude::*;
use vstd::string::*;

verus! {

/// Why a text is not a package name. Each rule has its own error.
#[derive(Debug, Clone, Copy, PartialEq, Eq, Structural)]
pub enum NameError {
    AuthorEmpty,
    AuthorLeadingDash,
    AuthorTrailingDash,
    AuthorDoubleDash,
    AuthorTooLong,
    AuthorInvalidChar,
    ProjectEmpty,
    ProjectDoubleDash,
    ProjectTrailingDash,
    ProjectInvalidChar,
    ProjectLeadingNonLetter,
    /// The text is not two parts around one slash.
    Malformed,
}

/// The text has two dashes in a row.
pub open spec fn has_double_dash(cs: Seq<char>) -> bool {
    exists|i: int| 0 <= i && i + 1 < cs.len() && cs[i] == '-' && #[trigger] cs[i + 1] == '-'
}

/// An ASCII lower-case letter.
pub open spec fn is_lower(c: char) -> bool {
    'a' <= c && c <= 'z'
}

/// A character that an author name may hold: an ASCII letter, a digit or a
/// dash.
pub open spec fn author_char(c: char) -> bool {
    is_lower(c) || ('A' <= c && c <= 'Z') || ('0' <= c && c <= '9') || c == '-'
}

/// A character that a project name may hold: an ASCII lower-case letter, a
/// digit or a dash.
pub open spec fn project_char(c: char) -> bool {
    is_lower(c) || ('0' <= c && c <= '9') || c == '-'
}

/// The number of bytes that the text takes in UTF-8.
pub open spec fn byte_len(cs: Seq<char>) -> nat {
    vstd::utf8::encode_utf8(cs).len()
}

/// The first rule that an author name breaks, if any. The rules, in order:
/// not empty, no dash at the start, none at the end, no two dashes in a row,
/// at most 39 bytes, and only letters, digits and dashes.
pub open spec fn author_error(cs: Seq<char>) -> Option<NameError> {
    if cs.len() == 0 {
        Some(NameError::AuthorEmpty)
    } else if cs[0] == '-' {
        Some(NameError::AuthorLeadingDash)
    } else if cs.last() == '-' {
        Some(NameError::AuthorTrailingDash)
    } else if has_double_dash(cs) {
        Some(NameError::AuthorDoubleDash)
    } else if byte_len(cs) > 39 {
        Some(NameError::AuthorTooLong)
    } else if exists|i: int| 0 <= i < cs.len() && !author_char(#[trigger] cs[i]) {
        Some(NameError::AuthorInvalidChar)
    } else {
        None
    }
}

/// The first rule that a project name breaks, if any. The rules, in order:
/// not empty, no two dashes in a row, no dash at the end, only lower-case
/// letters, digits and dashes, and a letter at the start.
pub open spec fn project_error(cs: Seq<char>) -> Option<NameError> {
    if cs.len() == 0 {
        Some(NameError::ProjectEmpty)
    } else if has_double_dash(cs) {
        Some(NameError::ProjectDoubleDash)
    } else if cs.last() == '-' {
        Some(NameError::ProjectTrailingDash)
    } else if exists|i: int| 0 <= i < cs.len() && !project_char(#[trigger] cs[i]) {
        Some(NameError::ProjectInvalidChar)
    } else if !is_lower(cs[0]) {
        Some(NameError::ProjectLeadingNonLetter)
    } else {
        None
    }
}

/// The first rule that the two parts of a name break, the author's first.
pub open spec fn name_error(author: Seq<char>, project: Seq<char>) -> Option<NameError> {
    if author_error(author) is Some {
        author_error(author)
    } else {
        project_error(project)
    }
}

/// What a package name holds: the two parts as texts.
pub struct NameView {
    pub author: Seq<char>,
    pub project: Seq<char>,
}

impl NameView {
    /// The written form `author/project`.
    pub open spec fn text(self) -> Seq<char> {
        self.author + seq!['/'] + self.project
    }

    /// Names are ordered by author, then by project, both in dictionary order.
    pub open spec fn less(self, other: NameView) -> bool {
        lex_less(self.author, other.author) || (self.author == other.author && lex_less(
            self.project,
            other.project,
        ))
    }
}

/// The order of names is a strict total order.
pub proof fn lemma_name_order(a: NameView, b: NameView, c: NameView)
    ensures
        !a.less(a),
        a.less(b) ==> !b.less(a),
        a != b ==> a.less(b) || b.less(a),
        a.less(b) && b.less(c) ==> a.less(c),
{
    lemma_lex_order(a.author, b.author, c.author);
    lemma_lex_order(a.project, b.project, c.project);
    lemma_lex_order(b.author, a.author, c.author);
    lemma_lex_order(b.project, a.project, c.project);
}

/// What parsing a package name from `cs` gives: the text must be two parts
/// around a single slash, and the parts must obey the rules.
pub open spec fn parse_name_spec(cs: Seq<char>) -> Result<NameView, NameError> {
    let parts = split(cs, '/');
    if parts.len() == 2 {
        match name_error(parts[0], parts[1]) {
            Some(e) => Err(e),
            None => Ok(NameView { author: parts[0], project: parts[1] }),
        }
    } else {
        Err(NameError::Malformed)
    }
}

/// The view of a result that holds a name.
pub open spec fn named(r: Result<Name, NameError>) -> Result<NameView, NameError> {
    match r {
        Ok(n) => Ok(n@),
        Err(e) => Err(e),
    }
}

/// The name of a package: an author and a project, both valid.
#[derive(Debug, PartialEq, Eq, PartialOrd, Ord, Hash)]
pub struct Name {
    author: String,
    project: String,
}

impl View for Name {
    type V = NameView;

    closed spec fn view(&self) -> NameView {
        NameView { author: self.author@, project: self.project@ }
    }
}

fn find_double_dash(cs: &Vec<char>) -> (r: bool)
    ensures
        r == has_double_dash(cs@),
{
    let n = cs.len();
    if n < 2 {
        return false;
    }
    let mut i: usize = 0;
    while i + 1 < n
        invariant
            i + 1 <= n,
            n == cs.len(),
            forall|k: int| 0 <= k < i ==> !(cs@[k] == '-' && #[trigger] cs@[k + 1] == '-'),
        decreases n - i,
    {
        if cs[i] == '-' && cs[i + 1] == '-' {
            return true;
        }
        i += 1;
    }
    false
}

fn is_ascii_lower(c: char) -> (r: bool)
    ensures
        r == is_lower(c),
{
    c >= 'a' && c <= 'z'
}

fn is_author_char(c: char) -> (r: bool)
    ensures
        r == author_char(c),
{
    (c >= 'a' && c <= 'z') || (c >= 'A' && c <= 'Z') || (c >= '0' && c <= '9') || c == '-'
}

fn is_project_char(c: char) -> (r: bool)
    ensures
        r == project_char(c),
{
    (c >= 'a' && c <= 'z') || (c >= '0' && c <= '9') || c == '-'
}

impl NameError {
    /// The sentence that tells the user what is wrong.
    pub open spec fn text(self) -> Seq<char> {
        match self {
            NameError::AuthorEmpty =>
                "Author name may not be empty. A valid package name looks like \"author/project\"."@,
            NameError::AuthorLeadingDash =>
                "Author name may not start with a dash. Please use your github username!"@,
            NameError::AuthorTrailingDash =>
                "Author name may not end with a dash. Please user your github username!"@,
            NameError::AuthorDoubleDash =>
                "Author name may not contain a double dash. Please use your github username!"@,
            NameError::AuthorTooLong =>
                "Author name may not be over 39 characters long. Please use your github username!"@,
            NameError::AuthorInvalidChar =>
                "Author name may only contain ascii alphanumeric characters."@,
            NameError::ProjectEmpty =>
                "Project name maybe not be empty. A valid package name looks like \"author/project\"."@,
            NameError::ProjectDoubleDash => "Project name cannot contain a double dash."@,
            NameError::ProjectTrailingDash => "Project name cannot end with a dash."@,
            NameError::ProjectInvalidChar =>
                "Project name may only contains lowercase letters, digits and dashes."@,
            NameError::ProjectLeadingNonLetter => "Project name must start with a letter"@,
            NameError::Malformed => "A valid package name look like \"author/project\""@,
        }
    }

    /// The sentence that tells the user what is wrong.
    pub fn message(&self) -> (s: &'static str)
        ensures
            s@ == self.text(),
    {
        match self {
            NameError::AuthorEmpty =>
                "Author name may not be empty. A valid package name looks like \"author/project\".",
            NameError::AuthorLeadingDash =>
                "Author name may not start with a dash. Please use your github username!",
            NameError::AuthorTrailingDash =>
                "Author name may not end with a dash. Please user your github username!",
            NameError::AuthorDoubleDash =>
                "Author name may not contain a double dash. Please use your github username!",
            NameError::AuthorTooLong =>
                "Author name may not be over 39 characters long. Please use your github username!",
            NameError::AuthorInvalidChar =>
                "Author name may only contain ascii alphanumeric characters.",
            NameError::ProjectEmpty =>
                "Project name maybe not be empty. A valid package name looks like \"author/project\".",
            NameError::ProjectDoubleDash => "Project name cannot contain a double dash.",
            NameError::ProjectTrailingDash => "Project name cannot end with a dash.",
            NameError::ProjectInvalidChar =>
                "Project name may only contains lowercase letters, digits and dashes.",
            NameError::ProjectLeadingNonLetter => "Project name must start with a letter",
            NameError::Malformed => "A valid package name look like \"author/project\"",
        }
    }

    /// The sentence that tells the user what is wrong, as an owned string.
    pub fn to_string(&self) -> (s: String)
        ensures
            s@ == self.text(),
    {
        self.message().to_owned()
    }
}

impl Name {
    /// What holds of every name that the program holds: both parts obey the
    /// rules.
    #[verifier::type_invariant]
    pub closed spec fn inv(&self) -> bool {
        name_error(self.author@, self.project@) is None
    }

    /// Both parts obey the rules.
    pub open spec fn wf(&self) -> bool {
        name_error(self@.author, self@.project) is None
    }

    /// Every name that the program holds obeys the rules.
    pub fn check(&self)
        ensures
            self.wf(),
    {
        proof {
            use_type_invariant(self);
        }
    }

    /// Checks an author name against the rules.
    #[verifier::loop_isolation(false)]
    pub fn validate_author(author: &str) -> (r: Result<(), NameError>)
        ensures
            r is Ok <==> author_error(author@) is None,
            r is Err ==> Some(r->Err_0) == author_error(author@),
    {
        let cs = chars_of(author);
        let n = cs.len();
        if n == 0 {
            return Err(NameError::AuthorEmpty);
        }
        if cs[0] == '-' {
            return Err(NameError::AuthorLeadingDash);
        }
        if cs[n - 1] == '-' {
            return Err(NameError::AuthorTrailingDash);
        }
        if find_double_dash(&cs) {
            return Err(NameError::AuthorDoubleDash);
        }
        if author.as_bytes().len() > 39 {
            return Err(NameError::AuthorTooLong);
        }
        let mut i: usize = 0;
        while i < n
            invariant
                i <= n,
                n == cs.len(),
                forall|k: int| 0 <= k < i ==> author_char(#[trigger] cs@[k]),
            decreases n - i,
        {
            if !is_author_char(cs[i]) {
                return Err(NameError::AuthorInvalidChar);
            }
            i += 1;
        }
        Ok(())
    }

    /// Checks a project name against the rules.
    #[verifier::loop_isolation(false)]
    pub fn validate_project(project: &str) -> (r: Result<(), NameError>)
        ensures
            r is Ok <==> project_error(project@) is None,
            r is Err ==> Some(r->Err_0) == project_error(project@),
    {
        let cs = chars_of(project);
        let n = cs.len();
        if n == 0 {
            return Err(NameError::ProjectEmpty);
        }
        if find_double_dash(&cs) {
            return Err(NameError::ProjectDoubleDash);
        }
        if cs[n - 1] == '-' {
            return Err(NameError::ProjectTrailingDash);
        }
        let mut i: usize = 0;
        while i < n
            invariant
                i <= n,
                n == cs.len(),
                forall|k: int| 0 <= k < i ==> project_char(#[trigger] cs@[k]),
            decreases n - i,
        {
            if !is_project_char(cs[i]) {
                return Err(NameError::ProjectInvalidChar);
            }
            i += 1;
        }
        if !is_ascii_lower(cs[0]) {
            return Err(NameError::ProjectLeadingNonLetter);
        }
        Ok(())
    }

    /// The name `author/project`, or the first rule that it breaks.
    pub fn new(author: &str, project: &str) -> (r: Result<Name, NameError>)
        ensures
            match name_error(author@, project@) {
                Some(e) => r == Err::<Name, NameError>(e),
                None => r is Ok && r->Ok_0@ == (NameView { author: author@, project: project@ }),
            },
    {
        match Name::validate_author(author) {
            Err(e) => {
                return Err(e);
            },
            Ok(_) => {},
        }
        match Name::validate_project(project) {
            Err(e) => {
                return Err(e);
            },
            Ok(_) => {},
        }
        Ok(Name { author: author.to_owned(), project: project.to_owned() })
    }

    /// Reads a name written as `author/project`.
    pub fn parse(package: &str) -> (r: Result<Name, NameError>)
        ensures
            named(r) == parse_name_spec(package@),
    {
        let cs = chars_of(package);
        let pieces = split_chars(&cs, '/');
        if pieces.len() != 2 {
            return Err(NameError::Malformed);
        }
        let cut = pieces[0].len();
        proof {
            lemma_split_in_two(cs@, '/');
            assert(split(cs@, '/')[0] == pieces[0]@);
            assert(split(cs@, '/')[1] == pieces[1]@);
        }
        let author = package.substring_char(0, cut);
        let project = package.substring_char(cut + 1, cs.len());
        Name::new(author, project)
    }

    /// The name of the core library, `elm/core`.
    pub fn elm_core() -> (r: Name)
        ensures
            r@ == (NameView { author: "elm"@, project: "core"@ }),
    {
        proof {
            reveal_strlit("elm");
            reveal_strlit("core");
            vstd::utf8::is_ascii_chars_encode_utf8("elm"@);
            assert(!has_double_dash("elm"@));
            assert(!has_double_dash("core"@));
            assert(author_error("elm"@) is None);
            assert(project_error("core"@) is None);
        }
        Name { author: "elm".to_owned(), project: "core".to_owned() }
    }

    /// The author part.
    pub fn author(&self) -> (s: &String)
        ensures
            s@ == self@.author,
    {
        &self.author
    }

    /// The project part.
    pub fn project(&self) -> (s: &String)
        ensures
            s@ == self@.project,
    {
        &self.project
    }

    /// Writes the name as `author/project`.
    pub fn to_string(&self) -> (s: String)
        ensures
            s@ == self@.text(),
    {
        let mut s = self.author.clone();
        s.append("/");
        s.append(self.project.as_str());
        proof {
            reveal_strlit("/");
            assert("/"@ =~= seq!['/']);
        }
        s
    }

    /// Whether two names are the same.
    pub fn same(&self, other: &Name) -> (r: bool)
        ensures
            r == (self@ == other@),
    {
        str_equal(self.author.as_str(), other.author.as_str()) && str_equal(
            self.project.as_str(),
            other.project.as_str(),
        )
    }

    /// Whether `self` comes before `other`: by author first, then by project.
    pub fn precedes(&self, other: &Name) -> (r: bool)
        ensures
            r == self@.less(other@),
    {
        if str_less(self.author.as_str(), other.author.as_str()) {
            true
        } else if str_equal(self.author.as_str(), other.author.as_str()) {
            str_less(self.project.as_str(), other.project.as_str())
        } else {
            false
        }
    }
}

impl Clone for Name {
    fn clone(&self) -> (r: Name)
        ensures
            r == *self,
            r@ == self@,
    {
        proof {
            use_type_invariant(self);
        }
        Name { author: self.author.clone(), project: self.project.clone() }
    }
}

impl FromStr for Name {
    type Err = NameError;

    /// Reads a name written as `author/project`.
    fn from_str(package: &str) -> (r: Result<Name, NameError>)
        ensures
            named(r) == parse_name_spec(package@),
    {
        Name::parse(package)
    }
}

} // verus!
