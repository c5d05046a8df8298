//! Which mounts the helper makes for whom, and how a sandbox makes its own.

use crate::bytes::lemma_text_in;
use crate::mount_operations::{covering, MountView};
use crate::mount_planner::{nullfs_plan, ActionView, TableView};
use crate::mount_policy::{
    document_refusal, octal_digits, octal_value, place_refusal, tmpfs_in, tmpfs_settings,
    with_tmpfs_option, ChrootsFacts, TmpfsError, TmpfsView,
};
use crate::numbers::{bounded_value, decimal, is_digit, lemma_decimal};
use crate::path::{
    body, components, file_name_of, is_absolute, joined, lead, lemma_parent,
    lemma_relative_components, parent_of, same_path, within,
};
use crate::text::{join, lemma_first_index_unique, lemma_join_split, split_once};
use vstd::prelude::*;
use vstd::utf8::encode_utf8;

verus! {

proof fn lemma_absolute_by_components(p: Seq<char>)
    ensures
        is_absolute(p) <==> components(p).len() > 0 && components(p)[0] == "/"@,
        is_absolute(p) ==> body(p) == components(p).skip(1),
{
    reveal_strlit("/");
    assert("/"@ =~= seq!['/']);
    if is_absolute(p) {
        assert(components(p).skip(1) =~= body(p));
    } else {
        lemma_relative_components(p);
    }
}

proof fn lemma_absolute_parent(p: Seq<char>)
    requires
        is_absolute(p),
    ensures
        parent_of(p) is Some <==> components(p).len() > 1,
        parent_of(p) matches Some(q) ==> is_absolute(q) && components(q) == components(
            p,
        ).drop_last(),
        file_name_of(p) == (if components(p).len() > 1 && components(p).last() != ".."@ {
            Some(components(p).last())
        } else {
            None
        }),
{
    reveal_strlit("..");
    assert(".."@ =~= seq!['.', '.']);
    lemma_parent(p);
    lemma_absolute_by_components(p);
    let n = components(p).len();
    assert(lead(p) != seq![seq!['.']]) by {
        assert(lead(p)[0] == seq!['/']);
        assert(seq!['/'][0] == '/');
        assert(seq!['.'][0] == '.');
        if lead(p) == seq![seq!['.']] {
            assert(lead(p)[0] == seq!['.']);
        }
    }
    if let Some(q) = parent_of(p) {
        lemma_absolute_by_components(q);
        assert(components(p).drop_last()[0] == components(p)[0]);
    }
    if n > 1 {
        assert(body(p).last() == components(p).last());
    }
}

/// The helper takes a directory for the root of a sandbox if and only if it lies by name two levels
/// below a directory `chroots`, which itself lies in a directory.
pub proof fn lemma_roots_of_sandboxes(root: Seq<char>)
    requires
        is_absolute(root),
    ensures
        place_refusal(root) is None <==> {
            let c = components(root);
            let n = c.len() as int;
            n >= 4 && c[n - 3] == "chroots"@ && c[n - 2] != ".."@ && c[n - 1] != ".."@
        },
{
    reveal_strlit("chroots");
    reveal_strlit("..");
    assert("chroots"@.len() == 7);
    assert(".."@.len() == 2);
    lemma_absolute_parent(root);
    let c = components(root);
    let n = c.len() as int;
    if n > 1 {
        let app = parent_of(root)->0;
        lemma_absolute_parent(app);
        if n > 2 {
            let chroots = parent_of(app)->0;
            lemma_absolute_parent(chroots);
            assert(components(app).last() == c[n - 2]);
            assert(components(chroots) == c.drop_last().drop_last());
            assert(components(chroots).last() == c[n - 3]);
            if n > 3 {
                assert(parent_of(chroots) is Some);
            }
        }
    }
}

/// A mount is taken down for a sandbox that is gone if and only if it is a document of the caller:
/// the directory of all sandboxes is the caller's and closed to all others, and the mount lies in it
/// where an instance has the documents of that user, at
/// `<application>/<instance>/run/user/<uid>/doc/<grant>/<file>`.
pub proof fn lemma_documents_that_were_left(
    facts: ChrootsFacts,
    mountpoint: Seq<char>,
    uid: u32,
)
    requires
        is_absolute(facts.chroots@),
    ensures
        document_refusal(facts, mountpoint, uid) is None <==> {
            let c = components(facts.chroots@);
            let m = components(mountpoint);
            let n = c.len() as int;
            &&& n > 1 && c[n - 1] == "chroots"@
            &&& facts.runtime_uid == uid && facts.chroots_uid == uid && facts.runtime_mode % 0o100
                == 0
            &&& is_absolute(mountpoint)
            &&& within(mountpoint, facts.chroots@)
            &&& m.len() == n + 8
            &&& forall|i: int| 0 <= i < m.len() ==> #[trigger] m[i] != ".."@
            &&& m[n + 2] == "run"@ && m[n + 3] == "user"@ && m[n + 5] == "doc"@
            &&& bounded_value(m[n + 4], u32::MAX as nat) == Some(uid as nat)
        },
{
    reveal_strlit("chroots");
    reveal_strlit("..");
    reveal_strlit(".");
    reveal_strlit("/");
    assert("/"@ =~= seq!['/']);
    assert("."@ =~= seq!['.']);
    assert("chroots"@.len() == 7);
    assert(".."@.len() == 2);
    lemma_absolute_parent(facts.chroots@);
    let mode = facts.runtime_mode;
    assert(mode & 0o077 == 0 <==> mode % 0o100 == 0) by (bit_vector);
    let c = components(facts.chroots@);
    let m = components(mountpoint);
    let n = c.len() as int;
    lemma_absolute_by_components(mountpoint);
    crate::path::lemma_body_kept(mountpoint);
    crate::path::lemma_body_names(mountpoint);
    if is_absolute(mountpoint) && within(mountpoint, facts.chroots@) {
        let parts = m.skip(n);
        if parts.len() == 8 {
            assert(parts[2] == m[n + 2]);
            assert(parts[3] == m[n + 3]);
            assert(parts[4] == m[n + 4]);
            assert(parts[5] == m[n + 5]);
            if n > 1 && forall|i: int| 0 <= i < m.len() ==> #[trigger] m[i] != ".."@ {
                assert forall|i: int| 0 <= i < 8 implies crate::path::is_name(
                    #[trigger] parts[i],
                ) by {
                    assert(parts[i] == m[n + i]);
                    assert(m[n + i] == body(mountpoint)[n + i - 1]);
                    let part = body(mountpoint)[n + i - 1];
                    assert(crate::path::kept(part));
                    if part == "/"@ {
                        assert(part[0] == '/');
                        assert(part.contains('/'));
                    }
                }
            }
        }
    }
    if document_refusal(facts, mountpoint, uid) is None {
        assert forall|i: int| 0 <= i < m.len() implies #[trigger] m[i] != ".."@ by {}
    }
}

proof fn lemma_option(name: Seq<char>, value: Seq<char>)
    requires
        !name.contains('='),
    ensures
        split_once(name + "="@ + value, '=') == Some((name, value)),
{
    reveal_strlit("=");
    let text = name + "="@ + value;
    let n = name.len() as int;
    assert forall|j: int| 0 <= j < n implies text[j] != '=' by {
        assert(text[j] == name[j]);
        assert(name.contains(name[j]));
    }
    assert(text[n] == '=');
    lemma_first_index_unique(text, '=', n);
    assert(text.take(n) =~= name);
    assert(text.skip(n + 1) =~= value);
}

proof fn lemma_number_text(n: nat)
    ensures
        !decimal(n).contains(','),
        !decimal(n).contains('='),
{
    lemma_decimal(n);
    let text = decimal(n);
    assert forall|i: int| 0 <= i < text.len() implies text[i] != ',' && text[i] != '=' by {
        assert(is_digit(text[i]));
    }
}

proof fn lemma_part(a: Seq<char>, b: Seq<char>)
    requires
        !a.contains(','),
        !b.contains(','),
    ensures
        !(a + b).contains(','),
{
    let s = a + b;
    if s.contains(',') {
        let i = choose|i: int| 0 <= i < s.len() && s[i] == ',';
        if i < a.len() {
            assert(a[i] == ',');
        } else {
            assert(b[i - a.len()] == ',');
        }
    }
}

/// A file system in memory that is asked for with a mode and an owner gets just those: the mode is
/// read as octal digits and the owner as numbers.
pub proof fn lemma_memory_gets_its_owner(uid: u32, gid: u32)
    ensures
        ({
            let text = "mode=0700"@ + ","@ + ("uid="@ + decimal(uid as nat)) + ","@ + ("gid="@
                + decimal(gid as nat));
            let settings = tmpfs_in(encode_utf8(text));
            &&& settings is Ok
            &&& settings->Ok_0.mode == Some(0o700u16)
            &&& settings->Ok_0.uid == Some(uid)
            &&& settings->Ok_0.gid == Some(gid)
        }),
{
    reveal_strlit("mode=0700");
    reveal_strlit("mode");
    reveal_strlit("0700");
    reveal_strlit("uid=");
    reveal_strlit("uid");
    reveal_strlit("gid=");
    reveal_strlit("gid");
    reveal_strlit(",");
    reveal_strlit("=");
    let (u, g) = (decimal(uid as nat), decimal(gid as nat));
    let a = "mode=0700"@;
    let b = "uid="@ + u;
    let c = "gid="@ + g;
    let text = a + ","@ + b + ","@ + c;
    lemma_text_in(text);
    lemma_number_text(uid as nat);
    lemma_number_text(gid as nat);
    lemma_decimal(uid as nat);
    lemma_decimal(gid as nat);
    lemma_part("uid="@, u);
    lemma_part("gid="@, g);
    let pieces = seq![a, b, c];
    assert(","@ =~= seq![',']);
    assert(join(pieces, ","@) =~= text) by {
        reveal_with_fuel(join, 3);
        assert(pieces.drop_last() =~= seq![a, b]);
        assert(seq![a, b].drop_last() =~= seq![a]);
    }
    assert forall|i: int| 0 <= i < pieces.len() implies !(#[trigger] pieces[i]).contains(',') by {
        assert(i == 0 || i == 1 || i == 2);
    }
    lemma_join_split(pieces, ',');
    assert(a =~= "mode"@ + "="@ + "0700"@);
    assert(b =~= "uid"@ + "="@ + u);
    assert(c =~= "gid"@ + "="@ + g);
    lemma_option("mode"@, "0700"@);
    lemma_option("uid"@, u);
    lemma_option("gid"@, g);
    let d = "0700"@;
    assert(octal_digits(d) == Some(448nat)) by {
        reveal_with_fuel(octal_digits, 5);
        let (d3, d2, d1) = (
            d.drop_last(),
            d.drop_last().drop_last(),
            d.drop_last().drop_last().drop_last(),
        );
        assert(d.last() == '0' && d3.last() == '0' && d2.last() == '7' && d1.last() == '0');
        assert(d1.len() == 1);
        assert(octal_digits(d1) == Some(0nat));
        assert(octal_digits(d2) == Some(7nat));
        assert(octal_digits(d3) == Some(56nat));
    }
    assert(octal_value(d) == Some(448nat));
    let none = TmpfsView { options: Seq::empty(), mode: None, uid: None, gid: None };
    let p1 = pieces.drop_last().drop_last();
    let p2 = pieces.drop_last();
    assert(p1 =~= seq![a]);
    assert(p2 =~= seq![a, b]);
    assert(p1.drop_last() =~= Seq::<Seq<char>>::empty());
    assert(p2.drop_last() =~= p1);
    assert(p1.last() == a && p2.last() == b && pieces.last() == c);
    assert("uid"@ != "mode"@ && "gid"@ != "mode"@ && "gid"@ != "uid"@) by {
        assert("uid"@.len() == 3);
        assert("mode"@.len() == 4);
        assert("uid"@[0] == 'u');
        assert("gid"@[0] == 'g');
    }
    reveal_with_fuel(tmpfs_settings, 2);
    assert(tmpfs_settings(p1.drop_last()) == Ok::<TmpfsView, TmpfsError>(none));
    let s1 = tmpfs_settings(p1);
    assert(s1 == with_tmpfs_option(none, a));
    assert(s1 is Ok && s1->Ok_0.mode == Some(448u16));
    let s2 = tmpfs_settings(p2);
    assert(s2 == with_tmpfs_option(s1->Ok_0, b));
    assert(s2 is Ok && s2->Ok_0.mode == Some(448u16) && s2->Ok_0.uid == Some(uid));
    let s3 = tmpfs_settings(pieces);
    assert(s3 == with_tmpfs_option(s2->Ok_0, c));
}

/// Whether one of the actions shows a directory at a place.
pub open spec fn shows_at(
    action: ActionView,
    source: Seq<char>,
    target: Seq<char>,
    read_only: bool,
) -> bool {
    match action {
        ActionView::Nullfs { source: s, target: t, read_only: r, .. } => s == source && t == target
            && r == read_only,
        _ => false,
    }
}

/// A directory is shown at its place with the access that was asked for. Where it is there already,
/// it is first shown, with the same access, at a private place of the sandbox, and from there at its
/// own. A source that does not come from a private place is held to what was looked at.
pub proof fn lemma_directories_are_shown(
    table: TableView,
    source: Seq<char>,
    target: Seq<char>,
    read_only: bool,
    shown: Option<Seq<char>>,
)
    ensures
        ({
            let plan = nullfs_plan(table, source, target, read_only, shown);
            let n = plan.len() as int;
            let private = joined(
                ".freebsd-flatpak-mount-sources"@,
                decimal(table.next_staging_id),
            );
            &&& n > 0
            &&& shown is Some && same_path(shown->0, source) ==> n > 1 && shows_at(
                plan[n - 2],
                source,
                private,
                read_only,
            ) && shows_at(plan[n - 1], joined(table.root, private), target, read_only)
            &&& !(shown is Some && same_path(shown->0, source)) ==> shows_at(
                plan[n - 1],
                source,
                target,
                read_only,
            )
            &&& forall|i: int|
                0 <= i < n && (#[trigger] plan[i]) is Nullfs ==> plan[i]->shown == source && (
                plan[i]->Nullfs_source == source && !within(
                    source,
                    joined(table.root, ".freebsd-flatpak-mount-sources"@),
                ) && plan[i]->Nullfs_target != target ==> plan[i]->pinned)
            &&& !table.staging_ready && shown is Some && same_path(shown->0, source) ==> n == 4
                && plan[0] == ActionView::CreateDirectory(
                joined(table.root, ".freebsd-flatpak-mount-sources"@),
            ) && plan[1] == (ActionView::Tmpfs {
                target: ".freebsd-flatpak-mount-sources"@,
                options: "mode=0700"@,
                staging: true,
            })
        }),
{
}

/// The mount that shows what stands at a place is the deepest of those that the place lies below;
/// of two that are equally deep it is the one that was made last.
pub proof fn lemma_deepest_mount_covers(mounts: Seq<MountView>, target: Seq<char>, k: int)
    requires
        0 <= k < mounts.len(),
        within(target, mounts[k].path),
        !same_path(target, mounts[k].path),
    ensures
        covering(mounts, target) matches Some(place) && within(target, place) && !same_path(
            target,
            place,
        ) && components(mounts[k].path).len() <= components(place).len(),
    decreases mounts.len(),
{
    let head = mounts.drop_last();
    if k < head.len() {
        assert(head[k] == mounts[k]);
        lemma_deepest_mount_covers(head, target, k);
    } else {
        lemma_covering_is_around(head, target);
    }
}

proof fn lemma_covering_is_around(mounts: Seq<MountView>, target: Seq<char>)
    ensures
        covering(mounts, target) matches Some(place) ==> within(target, place) && !same_path(
            target,
            place,
        ),
    decreases mounts.len(),
{
    if mounts.len() > 0 {
        lemma_covering_is_around(mounts.drop_last(), target);
    }
}

} // verus!
