//! The account that a sandbox shows to an application.

use crate::numbers::{decimal, lemma_decimal, render_u64};
use crate::override_laws::{lemma_lines_of_ended, no_break};
use crate::path::{is_absolute, FsPath};
use crate::static_overrides::ended_lines;
use crate::text::{
    chomp, concat, concat3, contains_char, join, join_texts, lemma_join_split, lines, split, texts,
    trim, trim_text,
};
use vstd::prelude::*;

verus! {

/// What an account file says of a user or a group.
#[derive(Debug, Clone, Copy, PartialEq, Eq, Structural)]
pub enum IdentityField {
    UserName,
    GroupName,
    RealName,
    HomeDirectory,
}

impl IdentityField {
    pub open spec fn spec_label(self) -> Seq<char> {
        match self {
            IdentityField::UserName => "user name"@,
            IdentityField::GroupName => "group name"@,
            IdentityField::RealName => "real name"@,
            IdentityField::HomeDirectory => "home directory"@,
        }
    }

    pub fn label(self) -> (r: &'static str)
        ensures
            r@ == self.spec_label(),
    {
        match self {
            IdentityField::UserName => "user name",
            IdentityField::GroupName => "group name",
            IdentityField::RealName => "real name",
            IdentityField::HomeDirectory => "home directory",
        }
    }
}

#[derive(Debug)]
pub enum IdentityError {
    /// A field holds a character that would end it, or its line.
    Unrepresentable(IdentityField),
    RelativeHome(FsPath),
}

impl IdentityError {
    pub open spec fn spec_message(self) -> Seq<char> {
        match self {
            IdentityError::Unrepresentable(field) => "host "@ + field.spec_label()
                + " cannot be represented in a sandbox identity file"@,
            IdentityError::RelativeHome(path) => "host home directory is not absolute: "@ + path@,
        }
    }

    pub fn message(&self) -> (r: String)
        ensures
            r@ == self.spec_message(),
    {
        match self {
            IdentityError::Unrepresentable(field) => concat3(
                "host ",
                field.label(),
                " cannot be represented in a sandbox identity file",
            ),
            IdentityError::RelativeHome(path) => concat(
                "host home directory is not absolute: ",
                path.as_str(),
            ),
        }
    }
}

/// Whether an account file can hold the text as a field.
pub open spec fn representable(text: Seq<char>) -> bool {
    !text.contains(':') && !text.contains('\n') && !text.contains('\r')
}

fn validate_field(field: IdentityField, value: &str) -> (r: Result<(), IdentityError>)
    ensures
        match r {
            Ok(_) => representable(value@),
            Err(error) => !representable(value@) && error == IdentityError::Unrepresentable(field),
        },
{
    if contains_char(value, ':') || contains_char(value, '\n') || contains_char(value, '\r') {
        Err(IdentityError::Unrepresentable(field))
    } else {
        Ok(())
    }
}

/// The account that a sandbox shows to an application.
#[derive(Debug)]
pub struct SandboxIdentity {
    pub uid: u32,
    pub gid: u32,
    pub user_name: String,
    pub group_name: Option<String>,
    pub real_name: String,
    pub home_dir: FsPath,
}

/// The name of a group, where there is one and it is not empty.
pub open spec fn named_group(name: Option<String>) -> Option<Seq<char>> {
    match name {
        Some(text) => if text@.len() == 0 {
            None
        } else {
            Some(text@)
        },
        None => None,
    }
}

/// Why no account can be made, if none can.
pub open spec fn identity_refusal(
    user_name: Seq<char>,
    group_name: Option<Seq<char>>,
    real_name: Seq<char>,
    home_dir: FsPath,
) -> Option<IdentityError> {
    if !representable(user_name) {
        Some(IdentityError::Unrepresentable(IdentityField::UserName))
    } else if group_name is Some && !representable(group_name->0) {
        Some(IdentityError::Unrepresentable(IdentityField::GroupName))
    } else if !representable(real_name) {
        Some(IdentityError::Unrepresentable(IdentityField::RealName))
    } else if !representable(home_dir@) {
        Some(IdentityError::Unrepresentable(IdentityField::HomeDirectory))
    } else if !is_absolute(home_dir@) {
        Some(IdentityError::RelativeHome(home_dir))
    } else {
        None
    }
}

/// The entry of a user: the name, an unused password, the numbers, the real name, the home
/// directory and the shell.
pub open spec fn user_fields(identity: SandboxIdentity) -> Seq<Seq<char>> {
    seq![
        identity.user_name@,
        "x"@,
        decimal(identity.uid as nat),
        decimal(identity.gid as nat),
        identity.real_name@,
        identity.home_dir@,
        "/bin/sh"@,
    ]
}

/// The entry of a group: the name, an unused password, the number and the member.
pub open spec fn group_fields(identity: SandboxIdentity) -> Seq<Seq<char>> {
    seq![
        identity.group_name->0@,
        "x"@,
        decimal(identity.gid as nat),
        identity.user_name@,
    ]
}

/// The user, and the one that stands for every other.
pub open spec fn passwd_lines(identity: SandboxIdentity) -> Seq<Seq<char>> {
    seq![
        join(user_fields(identity), ":"@),
        "nfsnobody:x:65534:65534:Unmapped user:/:/sbin/nologin"@,
    ]
}

/// The group, where its name is known, and the one that stands for every other.
pub open spec fn group_lines(identity: SandboxIdentity) -> Seq<Seq<char>> {
    match identity.group_name {
        Some(_) => seq![join(group_fields(identity), ":"@), "nfsnobody:x:65534:"@],
        None => seq!["nfsnobody:x:65534:"@],
    }
}

/// The lines of one entry and the one that stands for every other.
fn two_lines(fields: &Vec<String>, other: &str) -> (r: String)
    ensures
        r@ == ended_lines(seq![join(texts(fields@), ":"@), other@]),
{
    let mut out = join_texts(fields.as_slice(), ":");
    let ghost first = out@;
    out.append("\n");
    out.append(other);
    out.append("\n");
    proof {
        let ls = seq![first, other@];
        assert(ls.drop_last() =~= seq![first]);
        let none = Seq::<Seq<char>>::empty();
        assert(seq![first].drop_last() =~= none);
        assert(ended_lines(none) =~= Seq::<char>::empty());
        assert(ended_lines(seq![first]) =~= first + "\n"@);
        assert(out@ =~= ended_lines(ls));
    }
    out
}

impl SandboxIdentity {
    /// Whether no field can end another or its line, and the home is absolute.
    pub open spec fn wf(&self) -> bool {
        &&& representable(self.user_name@)
        &&& self.group_name matches Some(name) ==> representable(name@) && name@.len() > 0
        &&& representable(self.real_name@)
        &&& representable(self.home_dir@)
        &&& is_absolute(self.home_dir@)
    }

    pub fn new(
        uid: u32,
        gid: u32,
        user_name: String,
        group_name: Option<String>,
        real_name: String,
        home_dir: FsPath,
    ) -> (r: Result<SandboxIdentity, IdentityError>)
        ensures
            match r {
                Ok(identity) => {
                    &&& identity_refusal(
                        user_name@,
                        named_group(group_name),
                        real_name@,
                        home_dir,
                    ) is None
                    &&& identity.wf()
                    &&& identity.uid == uid
                    &&& identity.gid == gid
                    &&& identity.user_name == user_name
                    &&& named_group(identity.group_name) == named_group(group_name)
                    &&& identity.real_name == real_name
                    &&& identity.home_dir == home_dir
                },
                Err(error) => identity_refusal(
                    user_name@,
                    named_group(group_name),
                    real_name@,
                    home_dir,
                ) == Some(error),
            },
    {
        validate_field(IdentityField::UserName, &user_name)?;
        let group_name: Option<String> = match group_name {
            Some(name) => if name.unicode_len() == 0 {
                None
            } else {
                Some(name)
            },
            None => None,
        };
        if let Some(name) = &group_name {
            validate_field(IdentityField::GroupName, name)?;
        }
        validate_field(IdentityField::RealName, &real_name)?;
        validate_field(IdentityField::HomeDirectory, home_dir.as_str())?;
        if !home_dir.is_absolute() {
            return Err(IdentityError::RelativeHome(home_dir));
        }
        Ok(SandboxIdentity { uid, gid, user_name, group_name, real_name, home_dir })
    }

    pub fn uid(&self) -> (r: u32)
        ensures
            r == self.uid,
    {
        self.uid
    }

    pub fn user_name(&self) -> (r: &str)
        ensures
            r@ == self.user_name@,
    {
        self.user_name.as_str()
    }

    /// The file of users that the sandbox shows.
    pub fn passwd_contents(&self) -> (r: String)
        ensures
            r@ == ended_lines(passwd_lines(*self)),
    {
        let mut fields: Vec<String> = Vec::new();
        fields.push(self.user_name.clone());
        fields.push("x".to_string());
        fields.push(render_u64(self.uid as u64));
        fields.push(render_u64(self.gid as u64));
        fields.push(self.real_name.clone());
        fields.push(self.home_dir.text.clone());
        fields.push("/bin/sh".to_string());
        assert(texts(fields@) =~= user_fields(*self));
        two_lines(&fields, "nfsnobody:x:65534:65534:Unmapped user:/:/sbin/nologin")
    }

    /// The file of groups that the sandbox shows.
    pub fn group_contents(&self) -> (r: String)
        ensures
            r@ == ended_lines(group_lines(*self)),
    {
        match &self.group_name {
            Some(name) => {
                let mut fields: Vec<String> = Vec::new();
                fields.push(name.clone());
                fields.push("x".to_string());
                fields.push(render_u64(self.gid as u64));
                fields.push(self.user_name.clone());
                assert(texts(fields@) =~= group_fields(*self));
                two_lines(&fields, "nfsnobody:x:65534:")
            },
            None => {
                let out = concat("nfsnobody:x:65534:", "\n");
                proof {
                    let ls = seq!["nfsnobody:x:65534:"@];
                    let none = Seq::<Seq<char>>::empty();
                    assert(ls.drop_last() =~= none);
                    assert(ended_lines(none) =~= Seq::<char>::empty());
                    assert(out@ =~= ended_lines(ls));
                }
                out
            },
        }
    }
}

/// The name of the group that a program has printed, if it printed one.
pub fn primary_group_name(output: &str) -> (r: Option<String>)
    ensures
        match r {
            Some(name) => name@ == trim(output@) && name@.len() > 0,
            None => trim(output@).len() == 0,
        },
{
    let name = trim_text(output);
    if name.unicode_len() == 0 {
        None
    } else {
        Some(name)
    }
}

/// A representable text stands on a line of its own.
proof fn lemma_fields_on_a_line(fields: Seq<Seq<char>>)
    requires
        forall|i: int| 0 <= i < fields.len() ==> representable(#[trigger] fields[i]),
    ensures
        no_break(join(fields, ":"@)),
        !join(fields, ":"@).contains('\r'),
    decreases fields.len(),
{
    reveal_strlit(":");
    if fields.len() > 0 {
        let before = fields.drop_last();
        assert forall|i: int| 0 <= i < before.len() implies representable(#[trigger] before[i]) by {
            assert(before[i] == fields[i]);
        }
        lemma_fields_on_a_line(before);
        let all = join(fields, ":"@);
        assert(representable(fields[fields.len() - 1]));
        assert forall|j: int| 0 <= j < all.len() implies all[j] != '\n' && all[j] != '\r' by {
            let head = join(before, ":"@);
            if fields.len() == 1 {
                assert(fields.last().contains(fields.last()[j]));
            } else if j < head.len() {
                assert(head.contains(head[j]));
            } else if j > head.len() {
                assert(fields.last().contains(fields.last()[j - head.len() - 1]));
            }
        }
    }
}

/// The file of users holds the user and the one that stands for every other, and no field of the
/// user can be read as anything else.
pub proof fn lemma_passwd_entries(identity: SandboxIdentity)
    requires
        identity.wf(),
    ensures
        lines(ended_lines(passwd_lines(identity))) == passwd_lines(identity),
        split(passwd_lines(identity)[0], ':') == user_fields(identity),
{
    reveal_strlit("x");
    reveal_strlit("/bin/sh");
    reveal_strlit(":");
    reveal_strlit("nfsnobody:x:65534:65534:Unmapped user:/:/sbin/nologin");
    lemma_decimal(identity.uid as nat);
    lemma_decimal(identity.gid as nat);
    let fields = user_fields(identity);
    assert forall|i: int| 0 <= i < fields.len() implies representable(#[trigger] fields[i]) by {}
    lemma_fields_on_a_line(fields);
    assert(":"@ =~= seq![':']);
    lemma_join_split(fields, ':');
    let ls = passwd_lines(identity);
    assert forall|i: int| 0 <= i < ls.len() implies no_break(#[trigger] ls[i]) && chomp(ls[i])
        == ls[i] by {
        if i == 0 && ls[0].len() > 0 {
            assert(ls[0].contains(ls[0].last()));
        }
    }
    lemma_lines_of_ended(ls);
}

/// The file of groups holds the group, where its name is known, and the one that stands for every
/// other.
pub proof fn lemma_group_entries(identity: SandboxIdentity)
    requires
        identity.wf(),
    ensures
        lines(ended_lines(group_lines(identity))) == group_lines(identity),
        identity.group_name is Some ==> split(group_lines(identity)[0], ':') == group_fields(
            identity,
        ),
{
    reveal_strlit("x");
    reveal_strlit(":");
    reveal_strlit("nfsnobody:x:65534:");
    lemma_decimal(identity.gid as nat);
    let ls = group_lines(identity);
    if identity.group_name is Some {
        let fields = group_fields(identity);
        assert forall|i: int| 0 <= i < fields.len() implies representable(#[trigger] fields[i]) by {}
        lemma_fields_on_a_line(fields);
        assert(":"@ =~= seq![':']);
        lemma_join_split(fields, ':');
    }
    assert forall|i: int| 0 <= i < ls.len() implies no_break(#[trigger] ls[i]) && chomp(ls[i])
        == ls[i] by {
        if i == 0 && ls[0].len() > 0 {
            assert(ls[0].contains(ls[0].last()));
        }
    }
    lemma_lines_of_ended(ls);
}

} // verus!
