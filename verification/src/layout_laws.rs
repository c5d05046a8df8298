//! What every sandbox holds before anything is mounted in it, and what it tells of itself.

use crate::numbers::decimal;
use crate::override_laws::{lemma_lines_of_ended, no_break};
use crate::path::joined;
use crate::sandbox_root::{
    flatpak_info_text, info_list, layout_directories, link_steps, RootStepView,
};
use crate::static_overrides::ended_lines;
use crate::text::{chomp, join, lines};
use vstd::prelude::*;

verus! {

/// Every sandbox has places for the application, the runtime, devices, processes, the kernel and what
/// is temporary, for what the application keeps, and for the session of the user, and no others.
pub proof fn lemma_places_of_every_sandbox(root: Seq<char>, uid: u32, step: RootStepView)
    ensures
        layout_directories(root, uid).contains(step) <==> (step matches RootStepView::Directory(path)
            && (path == joined(root, "app"@) || path == joined(root, "usr"@) || path == joined(
            root,
            "dev"@,
        ) || path == joined(root, "proc"@) || path == joined(root, "sys"@) || path == joined(
            root,
            "tmp"@,
        ) || path == joined(root, "var/data"@) || path == joined(root, "var/cache"@) || path
            == joined(root, "var/config"@) || path == joined(
            joined(joined(root, "run"@), "user"@),
            decimal(uid as nat),
        ))),
{
    let steps = layout_directories(root, uid);
    assert(steps.len() == 10);
    assert(steps[0] == RootStepView::Directory(joined(root, "app"@)));
    assert(steps[1] == RootStepView::Directory(joined(root, "usr"@)));
    assert(steps[2] == RootStepView::Directory(joined(root, "dev"@)));
    assert(steps[3] == RootStepView::Directory(joined(root, "proc"@)));
    assert(steps[4] == RootStepView::Directory(joined(root, "sys"@)));
    assert(steps[5] == RootStepView::Directory(joined(root, "tmp"@)));
    assert(steps[6] == RootStepView::Directory(joined(root, "var/data"@)));
    assert(steps[7] == RootStepView::Directory(joined(root, "var/cache"@)));
    assert(steps[8] == RootStepView::Directory(joined(root, "var/config"@)));
    assert(steps[9] == RootStepView::Directory(
        joined(joined(joined(root, "run"@), "user"@), decimal(uid as nat)),
    ));
}

/// A link is made where nothing stands in its place, and only there.
pub proof fn lemma_links_where_nothing_stands(
    target: Seq<char>,
    link: Seq<char>,
    taken: bool,
    step: RootStepView,
)
    ensures
        link_steps(target, link, taken).contains(step) <==> !taken && step
            == (RootStepView::Symlink { target, link }),
{
    if !taken {
        assert(link_steps(target, link, taken)[0] == (RootStepView::Symlink { target, link }));
    }
}

/// Whether a text stands on a line by itself.
pub open spec fn on_a_line(text: Seq<char>) -> bool {
    !text.contains('\n') && !text.contains('\r')
}

/// What is told of extensions: each, and a semicolon behind it.
pub open spec fn told_list(items: Seq<Seq<char>>) -> Seq<char>
    decreases items.len(),
{
    if items.len() == 0 {
        Seq::empty()
    } else {
        told_list(items.drop_last()) + items.last() + ";"@
    }
}

proof fn lemma_told_list(items: Seq<Seq<char>>)
    ensures
        info_list(items) == told_list(items),
    decreases items.len(),
{
    if items.len() > 1 {
        lemma_told_list(items.drop_last());
        assert(join(items, ";"@) == join(items.drop_last(), ";"@) + ";"@ + items.last());
        assert(info_list(items) =~= told_list(items));
    } else if items.len() == 1 {
        assert(items.drop_last().len() == 0);
        assert(join(items, ";"@) =~= items.last());
        assert(told_list(items.drop_last()) =~= Seq::<char>::empty());
        assert(info_list(items) =~= told_list(items));
    }
}

proof fn lemma_line(head: Seq<char>, text: Seq<char>)
    requires
        on_a_line(head),
        on_a_line(text),
    ensures
        on_a_line(head + text),
        no_break(head + text),
        chomp(head + text) == head + text,
{
    let s = head + text;
    if s.contains('\n') {
        let i = choose|i: int| 0 <= i < s.len() && s[i] == '\n';
        assert(s[i] == if i < head.len() { head[i] } else { text[i - head.len()] });
        assert(head.contains('\n') || text.contains('\n'));
    }
    if s.contains('\r') {
        let i = choose|i: int| 0 <= i < s.len() && s[i] == '\r';
        assert(s[i] == if i < head.len() { head[i] } else { text[i - head.len()] });
        assert(head.contains('\r') || text.contains('\r'));
    }
    if s.len() > 0 {
        assert(s.contains(s.last()));
    }
}

proof fn lemma_info_pieces()
    ensures
        "[Application]\nname="@ == "[Application]"@ + "\n"@ + "name="@,
        "\nruntime="@ == "\n"@ + "runtime="@,
        "\n\n[Instance]\ninstance-id="@ == "\n"@ + "\n"@ + "[Instance]"@ + "\n"@ + "instance-id="@,
        "\nflatpak-version=1.12.0\napp-extensions="@ == "\n"@ + "flatpak-version=1.12.0"@ + "\n"@ + "app-extensions="@,
        "\nruntime-extensions="@ == "\n"@ + "runtime-extensions="@,
        "\n\n[Context]\nfilesystems=\n"@ == "\n"@ + "\n"@ + "[Context]"@ + "\n"@ + "filesystems="@ + "\n"@,
{
    reveal_strlit("\n");
    reveal_strlit("[Application]");
    reveal_strlit("name=");
    reveal_strlit("runtime=");
    reveal_strlit("[Instance]");
    reveal_strlit("instance-id=");
    reveal_strlit("flatpak-version=1.12.0");
    reveal_strlit("app-extensions=");
    reveal_strlit("runtime-extensions=");
    reveal_strlit("[Context]");
    reveal_strlit("filesystems=");
    reveal_strlit("[Application]\nname=");
    reveal_strlit("\nruntime=");
    reveal_strlit("\n\n[Instance]\ninstance-id=");
    reveal_strlit("\nflatpak-version=1.12.0\napp-extensions=");
    reveal_strlit("\nruntime-extensions=");
    reveal_strlit("\n\n[Context]\nfilesystems=\n");
    assert("[Application]\nname="@ =~= "[Application]"@ + "\n"@ + "name="@);
    assert("\nruntime="@ =~= "\n"@ + "runtime="@);
    assert("\n\n[Instance]\ninstance-id="@ =~= "\n"@ + "\n"@ + "[Instance]"@ + "\n"@ + "instance-id="@);
    assert("\nflatpak-version=1.12.0\napp-extensions="@ =~= "\n"@ + "flatpak-version=1.12.0"@ + "\n"@ + "app-extensions="@);
    assert("\nruntime-extensions="@ =~= "\n"@ + "runtime-extensions="@);
    assert("\n\n[Context]\nfilesystems=\n"@ =~= "\n"@ + "\n"@ + "[Context]"@ + "\n"@ + "filesystems="@ + "\n"@);
}

proof fn lemma_info_words()
    ensures
        on_a_line("[Application]"@),
        on_a_line("name="@),
        on_a_line("runtime="@),
        on_a_line("[Instance]"@),
        on_a_line("instance-id="@),
        on_a_line("flatpak-version=1.12.0"@),
        on_a_line("app-extensions="@),
        on_a_line("runtime-extensions="@),
        on_a_line("[Context]"@),
        on_a_line("filesystems="@),
{
    reveal_strlit("[Application]");
    reveal_strlit("name=");
    reveal_strlit("runtime=");
    reveal_strlit("[Instance]");
    reveal_strlit("instance-id=");
    reveal_strlit("flatpak-version=1.12.0");
    reveal_strlit("app-extensions=");
    reveal_strlit("runtime-extensions=");
    reveal_strlit("[Context]");
    reveal_strlit("filesystems=");
    assert(on_a_line("[Application]"@)) by {
        let s = "[Application]"@;
        assert forall|i: int| 0 <= i < s.len() implies s[i] != '\n' && s[i] != '\r' by {}
    }
    assert(on_a_line("name="@)) by {
        let s = "name="@;
        assert forall|i: int| 0 <= i < s.len() implies s[i] != '\n' && s[i] != '\r' by {}
    }
    assert(on_a_line("runtime="@)) by {
        let s = "runtime="@;
        assert forall|i: int| 0 <= i < s.len() implies s[i] != '\n' && s[i] != '\r' by {}
    }
    assert(on_a_line("[Instance]"@)) by {
        let s = "[Instance]"@;
        assert forall|i: int| 0 <= i < s.len() implies s[i] != '\n' && s[i] != '\r' by {}
    }
    assert(on_a_line("instance-id="@)) by {
        let s = "instance-id="@;
        assert forall|i: int| 0 <= i < s.len() implies s[i] != '\n' && s[i] != '\r' by {}
    }
    assert(on_a_line("flatpak-version=1.12.0"@)) by {
        let s = "flatpak-version=1.12.0"@;
        assert forall|i: int| 0 <= i < s.len() implies s[i] != '\n' && s[i] != '\r' by {}
    }
    assert(on_a_line("app-extensions="@)) by {
        let s = "app-extensions="@;
        assert forall|i: int| 0 <= i < s.len() implies s[i] != '\n' && s[i] != '\r' by {}
    }
    assert(on_a_line("runtime-extensions="@)) by {
        let s = "runtime-extensions="@;
        assert forall|i: int| 0 <= i < s.len() implies s[i] != '\n' && s[i] != '\r' by {}
    }
    assert(on_a_line("[Context]"@)) by {
        let s = "[Context]"@;
        assert forall|i: int| 0 <= i < s.len() implies s[i] != '\n' && s[i] != '\r' by {}
    }
    assert(on_a_line("filesystems="@)) by {
        let s = "filesystems="@;
        assert forall|i: int| 0 <= i < s.len() implies s[i] != '\n' && s[i] != '\r' by {}
    }
}

proof fn lemma_info_lines(
    app_id: Seq<char>,
    runtime_ref: Seq<char>,
    instance_id: Seq<char>,
    app_list: Seq<char>,
    runtime_list: Seq<char>,
)
    requires
        on_a_line(app_id),
        on_a_line(runtime_ref),
        on_a_line(instance_id),
        on_a_line(app_list),
        on_a_line(runtime_list),
    ensures
        lines(
            "[Application]\nname="@ + app_id + "\nruntime="@ + runtime_ref
                + "\n\n[Instance]\ninstance-id="@ + instance_id
                + "\nflatpak-version=1.12.0\napp-extensions="@ + app_list
                + "\nruntime-extensions="@ + runtime_list + "\n\n[Context]\nfilesystems=\n"@,
        ) == info_lines(app_id, runtime_ref, instance_id, app_list, runtime_list),
{
    let none = Seq::<char>::empty();
    let ls = info_lines(app_id, runtime_ref, instance_id, app_list, runtime_list);
    lemma_info_words();
    lemma_line("name="@, app_id);
    lemma_line("runtime="@, runtime_ref);
    lemma_line("instance-id="@, instance_id);
    lemma_line("app-extensions="@, app_list);
    lemma_line("runtime-extensions="@, runtime_list);
    lemma_line(none, none);
    assert(none + none =~= none);
    lemma_line(none, "[Application]"@);
    lemma_line(none, "[Instance]"@);
    lemma_line(none, "flatpak-version=1.12.0"@);
    lemma_line(none, "[Context]"@);
    lemma_line(none, "filesystems="@);
    assert(none + "[Application]"@ =~= "[Application]"@);
    assert(none + "[Instance]"@ =~= "[Instance]"@);
    assert(none + "flatpak-version=1.12.0"@ =~= "flatpak-version=1.12.0"@);
    assert(none + "[Context]"@ =~= "[Context]"@);
    assert(none + "filesystems="@ =~= "filesystems="@);
    assert forall|i: int| 0 <= i < ls.len() implies no_break(#[trigger] ls[i]) && chomp(ls[i])
        == ls[i] by {
        assert(i == 0 || i == 1 || i == 2 || i == 3 || i == 4 || i == 5 || i == 6 || i == 7 || i
            == 8 || i == 9 || i == 10 || i == 11);
    }
    lemma_lines_of_ended(ls);
    lemma_info_text(app_id, runtime_ref, instance_id, app_list, runtime_list);
}

/// The lines that tell of an instance.
pub open spec fn info_lines(
    app_id: Seq<char>,
    runtime_ref: Seq<char>,
    instance_id: Seq<char>,
    app_list: Seq<char>,
    runtime_list: Seq<char>,
) -> Seq<Seq<char>> {
    seq![
        "[Application]"@,
        "name="@ + app_id,
        "runtime="@ + runtime_ref,
        Seq::<char>::empty(),
        "[Instance]"@,
        "instance-id="@ + instance_id,
        "flatpak-version=1.12.0"@,
        "app-extensions="@ + app_list,
        "runtime-extensions="@ + runtime_list,
        Seq::<char>::empty(),
        "[Context]"@,
        "filesystems="@,
    ]
}

proof fn lemma_first_lines(m: Seq<char>, h: Seq<char>, x: Seq<char>, nl: Seq<char>)
    ensures
        Seq::<char>::empty() + m + nl + (h + x) + nl == (m + nl + h) + x + nl,
{
    assert(Seq::<char>::empty() + m + nl + (h + x) + nl =~= (m + nl + h) + x + nl);
}

proof fn lemma_next_line(p: Seq<char>, h: Seq<char>, x: Seq<char>, nl: Seq<char>)
    ensures
        p + nl + (h + x) + nl == p + (nl + h) + x + nl,
{
    assert(p + nl + (h + x) + nl =~= p + (nl + h) + x + nl);
}

proof fn lemma_next_lines(p: Seq<char>, m: Seq<char>, h: Seq<char>, x: Seq<char>, nl: Seq<char>)
    ensures
        p + nl + m + nl + (h + x) + nl == p + (nl + m + nl + h) + x + nl,
{
    assert(p + nl + m + nl + (h + x) + nl =~= p + (nl + m + nl + h) + x + nl);
}

proof fn lemma_next_section(p: Seq<char>, m: Seq<char>, h: Seq<char>, x: Seq<char>, nl: Seq<char>)
    ensures
        p + nl + Seq::<char>::empty() + nl + m + nl + (h + x) + nl == p + (nl + nl + m + nl + h) + x
            + nl,
{
    assert(p + nl + Seq::<char>::empty() + nl + m + nl + (h + x) + nl =~= p + (nl + nl + m + nl + h)
        + x + nl);
}

proof fn lemma_last_section(p: Seq<char>, m: Seq<char>, h: Seq<char>, nl: Seq<char>)
    ensures
        p + nl + Seq::<char>::empty() + nl + m + nl + h + nl == p + (nl + nl + m + nl + h + nl),
{
    assert(p + nl + Seq::<char>::empty() + nl + m + nl + h + nl =~= p + (nl + nl + m + nl + h + nl));
}

proof fn lemma_info_text(
    app_id: Seq<char>,
    runtime_ref: Seq<char>,
    instance_id: Seq<char>,
    app_list: Seq<char>,
    runtime_list: Seq<char>,
)
    ensures
        ended_lines(info_lines(app_id, runtime_ref, instance_id, app_list, runtime_list))
            == "[Application]\nname="@ + app_id + "\nruntime="@ + runtime_ref
            + "\n\n[Instance]\ninstance-id="@ + instance_id
            + "\nflatpak-version=1.12.0\napp-extensions="@ + app_list
            + "\nruntime-extensions="@ + runtime_list + "\n\n[Context]\nfilesystems=\n"@,
{
    lemma_info_pieces();
    let ls = info_lines(app_id, runtime_ref, instance_id, app_list, runtime_list);
    let t0 = Seq::<char>::empty();
    assert(ended_lines(ls.take(0)) =~= t0);
    let t1 = t0 + ("[Application]"@) + "\n"@;
    assert(ls.take(1).drop_last() =~= ls.take(0));
    assert(ls.take(1).last() == "[Application]"@);
    assert(ended_lines(ls.take(1)) == t1);
    let t2 = t1 + ("name="@ + app_id) + "\n"@;
    assert(ls.take(2).drop_last() =~= ls.take(1));
    assert(ls.take(2).last() == "name="@ + app_id);
    assert(ended_lines(ls.take(2)) == t2);
    let t3 = t2 + ("runtime="@ + runtime_ref) + "\n"@;
    assert(ls.take(3).drop_last() =~= ls.take(2));
    assert(ls.take(3).last() == "runtime="@ + runtime_ref);
    assert(ended_lines(ls.take(3)) == t3);
    let t4 = t3 + (Seq::<char>::empty()) + "\n"@;
    assert(ls.take(4).drop_last() =~= ls.take(3));
    assert(ls.take(4).last() == Seq::<char>::empty());
    assert(ended_lines(ls.take(4)) == t4);
    let t5 = t4 + ("[Instance]"@) + "\n"@;
    assert(ls.take(5).drop_last() =~= ls.take(4));
    assert(ls.take(5).last() == "[Instance]"@);
    assert(ended_lines(ls.take(5)) == t5);
    let t6 = t5 + ("instance-id="@ + instance_id) + "\n"@;
    assert(ls.take(6).drop_last() =~= ls.take(5));
    assert(ls.take(6).last() == "instance-id="@ + instance_id);
    assert(ended_lines(ls.take(6)) == t6);
    let t7 = t6 + ("flatpak-version=1.12.0"@) + "\n"@;
    assert(ls.take(7).drop_last() =~= ls.take(6));
    assert(ls.take(7).last() == "flatpak-version=1.12.0"@);
    assert(ended_lines(ls.take(7)) == t7);
    let t8 = t7 + ("app-extensions="@ + app_list) + "\n"@;
    assert(ls.take(8).drop_last() =~= ls.take(7));
    assert(ls.take(8).last() == "app-extensions="@ + app_list);
    assert(ended_lines(ls.take(8)) == t8);
    let t9 = t8 + ("runtime-extensions="@ + runtime_list) + "\n"@;
    assert(ls.take(9).drop_last() =~= ls.take(8));
    assert(ls.take(9).last() == "runtime-extensions="@ + runtime_list);
    assert(ended_lines(ls.take(9)) == t9);
    let t10 = t9 + (Seq::<char>::empty()) + "\n"@;
    assert(ls.take(10).drop_last() =~= ls.take(9));
    assert(ls.take(10).last() == Seq::<char>::empty());
    assert(ended_lines(ls.take(10)) == t10);
    let t11 = t10 + ("[Context]"@) + "\n"@;
    assert(ls.take(11).drop_last() =~= ls.take(10));
    assert(ls.take(11).last() == "[Context]"@);
    assert(ended_lines(ls.take(11)) == t11);
    let t12 = t11 + ("filesystems="@) + "\n"@;
    assert(ls.take(12).drop_last() =~= ls.take(11));
    assert(ls.take(12).last() == "filesystems="@);
    assert(ended_lines(ls.take(12)) == t12);
    assert(ls.take(12) =~= ls);
    let nl = "\n"@;
    lemma_first_lines("[Application]"@, "name="@, app_id, nl);
    let p1 = "[Application]\nname="@ + app_id;
    assert(t2 == p1 + nl);
    lemma_next_line(p1, "runtime="@, runtime_ref, nl);
    let p2 = p1 + "\nruntime="@ + runtime_ref;
    assert(t3 == p2 + nl);
    lemma_next_section(p2, "[Instance]"@, "instance-id="@, instance_id, nl);
    let p3 = p2 + "\n\n[Instance]\ninstance-id="@ + instance_id;
    assert(t6 == p3 + nl);
    lemma_next_lines(p3, "flatpak-version=1.12.0"@, "app-extensions="@, app_list, nl);
    let p4 = p3 + "\nflatpak-version=1.12.0\napp-extensions="@ + app_list;
    assert(t8 == p4 + nl);
    lemma_next_line(p4, "runtime-extensions="@, runtime_list, nl);
    let p5 = p4 + "\nruntime-extensions="@ + runtime_list;
    assert(t9 == p5 + nl);
    lemma_last_section(p5, "[Context]"@, "filesystems="@, nl);
    assert(t12 == p5 + "\n\n[Context]\nfilesystems=\n"@);
}

/// What the sandbox tells the application of itself, line by line: the names of the application and
/// of its runtime, the instance, the version of the interface, and the extensions of both, each with a
/// semicolon behind it.
pub proof fn lemma_what_a_sandbox_tells(
    app_id: Seq<char>,
    runtime_ref: Seq<char>,
    instance_id: Seq<char>,
    app_extensions: Seq<Seq<char>>,
    runtime_extensions: Seq<Seq<char>>,
)
    requires
        on_a_line(app_id),
        on_a_line(runtime_ref),
        on_a_line(instance_id),
        on_a_line(told_list(app_extensions)),
        on_a_line(told_list(runtime_extensions)),
    ensures
        lines(
            flatpak_info_text(
                app_id,
                runtime_ref,
                instance_id,
                app_extensions,
                runtime_extensions,
            ),
        ) == seq![
            "[Application]"@,
            "name="@ + app_id,
            "runtime="@ + runtime_ref,
            Seq::<char>::empty(),
            "[Instance]"@,
            "instance-id="@ + instance_id,
            "flatpak-version=1.12.0"@,
            "app-extensions="@ + told_list(app_extensions),
            "runtime-extensions="@ + told_list(runtime_extensions),
            Seq::<char>::empty(),
            "[Context]"@,
            "filesystems="@,
        ],
{
    lemma_told_list(app_extensions);
    lemma_told_list(runtime_extensions);
    lemma_info_lines(
        app_id,
        runtime_ref,
        instance_id,
        told_list(app_extensions),
        told_list(runtime_extensions),
    );
}

} // verus!
