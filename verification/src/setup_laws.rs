//! What holds of a sandbox that is prepared: what the application finds in it, at which place, and
//! where it can write.

use crate::chroot_backend::{
    and_then, base_steps, below_root, data_steps, deployment_steps, extension_steps, grant_steps,
    hidden_roots, host_mount_view, host_steps, lemma_grants_keep_their_access, mask_options,
    network_steps, projection_steps, resource_steps, session_steps, setup_steps, shown_once,
    system_steps, Refused, SetupInputs, SetupView,
};
use crate::filesystem_grants::{chroot_relative, GrantView};
use crate::filesystem_permissions::AccessMode;
use crate::flatpak_data_mount_plan::FlatpakDataMountPlan;
use crate::numbers::decimal;
use crate::path::{joined, same_path};
use crate::text::views;
use vstd::prelude::*;

verus! {

/// Whether a directory is shown at a place.
pub open spec fn shows(
    plan: Seq<SetupView>,
    source: Seq<char>,
    target: Seq<char>,
    read_only: bool,
) -> bool {
    plan.contains(SetupView::Show { source, target, read_only })
}

/// Whether something of the host is seen in the sandbox at a path, where it cannot be changed.
pub open spec fn seen_at_its_path(
    plan: Seq<SetupView>,
    host_path: Seq<char>,
    sandbox_path: Seq<char>,
) -> bool {
    chroot_relative(sandbox_path) is Some && shows(
        plan,
        host_path,
        chroot_relative(sandbox_path)->0,
        true,
    )
}

/// Whether one step is done before another.
pub open spec fn comes_before(plan: Seq<SetupView>, first: SetupView, second: SetupView) -> bool {
    exists|a: int, b: int|
        0 <= a < b < plan.len() && #[trigger] plan[a] == first && #[trigger] plan[b] == second
}

proof fn lemma_sum<A>(a: Seq<A>, b: Seq<A>)
    ensures
        forall|x: A| #[trigger] (a + b).contains(x) <==> a.contains(x) || b.contains(x),
{
    let s = a + b;
    assert forall|x: A| #[trigger] s.contains(x) <==> a.contains(x) || b.contains(x) by {
        if a.contains(x) {
            let i = choose|i: int| 0 <= i < a.len() && a[i] == x;
            assert(s[i] == x);
        }
        if b.contains(x) {
            let i = choose|i: int| 0 <= i < b.len() && b[i] == x;
            assert(s[a.len() + i] == x);
        }
        if s.contains(x) {
            let i = choose|i: int| 0 <= i < s.len() && s[i] == x;
            if i < a.len() {
                assert(a[i] == x);
            } else {
                assert(b[i - a.len()] == x);
            }
        }
    }
}

proof fn lemma_parts(first: Result<Seq<SetupView>, Refused>, second: Result<Seq<SetupView>, Refused>)
    ensures
        and_then(first, second) is Ok <==> first is Ok && second is Ok,
        and_then(first, second) is Ok ==> forall|x: SetupView| #[trigger]
            (and_then(first, second)->Ok_0).contains(x) <==> (first->Ok_0).contains(x) || (
            second->Ok_0).contains(x),
{
    if first is Ok && second is Ok {
        lemma_sum(first->Ok_0, second->Ok_0);
    }
}

/// The parts of a plan that can stop it.
spec fn parts_are_ok(inputs: SetupInputs) -> bool {
    &&& resource_steps(inputs) is Ok
    &&& data_steps(inputs.data_plan, inputs.uid, inputs.gid) is Ok
    &&& host_steps(views(inputs.cursor@), None) is Ok
    &&& host_steps(views(inputs.fonts@), None) is Ok
    &&& host_steps(views(inputs.sysfs@), None) is Ok
}

spec fn in_base(inputs: SetupInputs, x: SetupView) -> bool {
    ||| base_steps(inputs.app_dir@, inputs.runtime_dir@, inputs.app_data@).contains(x)
    ||| extension_steps(views(inputs.app_extensions@)).contains(x)
}

spec fn in_rest(inputs: SetupInputs, x: SetupView) -> bool {
    ||| projection_steps(inputs.projection).contains(x)
    ||| (host_steps(views(inputs.cursor@), None)->Ok_0).contains(x)
    ||| (host_steps(views(inputs.fonts@), None)->Ok_0).contains(x)
    ||| session_steps(
        inputs.xdg_runtime_dir@,
        crate::mount_operations::optional_text(inputs.doc_dir),
        inputs.uid,
    ).contains(x)
    ||| system_steps().contains(x)
    ||| (host_steps(views(inputs.sysfs@), None)->Ok_0).contains(x)
}

proof fn lemma_plan(inputs: SetupInputs)
    ensures
        setup_steps(inputs) is Ok <==> parts_are_ok(inputs),
        setup_steps(inputs) is Ok ==> forall|x: SetupView| #[trigger]
            (setup_steps(inputs)->Ok_0).contains(x) <==> in_base(inputs, x) || (resource_steps(
                inputs,
            )->Ok_0).contains(x) || (data_steps(
                inputs.data_plan,
                inputs.uid,
                inputs.gid,
            )->Ok_0).contains(x) || in_rest(inputs, x),
        setup_steps(inputs) is Ok ==> {
            let base = base_steps(inputs.app_dir@, inputs.runtime_dir@, inputs.app_data@)
                + extension_steps(views(inputs.app_extensions@));
            let plan = setup_steps(inputs)->Ok_0;
            plan.len() >= base.len() && plan.take(base.len() as int) == base
        },
{
    let own = base_steps(inputs.app_dir@, inputs.runtime_dir@, inputs.app_data@);
    let more = extension_steps(views(inputs.app_extensions@));
    let base = own + more;
    lemma_sum(own, more);
    let session = session_steps(
        inputs.xdg_runtime_dir@,
        crate::mount_operations::optional_text(inputs.doc_dir),
        inputs.uid,
    );
    let rest = session + system_steps();
    lemma_sum(session, system_steps());
    let data = data_steps(inputs.data_plan, inputs.uid, inputs.gid);
    let projection: Result<Seq<SetupView>, Refused> = Ok(projection_steps(inputs.projection));
    let cursor = host_steps(views(inputs.cursor@), None);
    let fonts = host_steps(views(inputs.fonts@), None);
    let sysfs = host_steps(views(inputs.sysfs@), None);
    let a: Result<Seq<SetupView>, Refused> = Ok(base);
    let b = and_then(a, resource_steps(inputs));
    let c = and_then(b, data);
    let d = and_then(c, projection);
    let e = and_then(d, cursor);
    let f = and_then(e, fonts);
    let g = and_then(f, Ok(rest));
    let h = and_then(g, sysfs);
    lemma_parts(a, resource_steps(inputs));
    lemma_parts(b, data);
    lemma_parts(c, projection);
    lemma_parts(d, cursor);
    lemma_parts(e, fonts);
    lemma_parts(f, Ok(rest));
    lemma_parts(g, sysfs);
    assert(h == setup_steps(inputs));
    if h is Ok {
        let n = base.len() as int;
        assert((b->Ok_0).take(n) =~= base);
        assert((c->Ok_0).take(n) =~= base);
        assert((d->Ok_0).take(n) =~= base);
        assert((e->Ok_0).take(n) =~= base);
        assert((f->Ok_0).take(n) =~= base);
        assert((g->Ok_0).take(n) =~= base);
        assert((h->Ok_0).take(n) =~= base);
    }
}

spec fn in_resources(inputs: SetupInputs, x: SetupView) -> bool {
    let compat = inputs.linux_compat@;
    ||| shown_once(compat).contains(x)
    ||| (host_steps(views(inputs.graphics@), Some(compat.1))->Ok_0).contains(x)
    ||| (network_steps(
        host_mount_view(inputs.network),
        compat.1,
        views(inputs.graphics@),
    )->Ok_0).contains(x)
    ||| inputs.system_bus is Some && shown_once((inputs.system_bus->0)@).contains(x)
    ||| (host_steps(views(inputs.video@), None)->Ok_0).contains(x)
}

proof fn lemma_resources(inputs: SetupInputs)
    ensures
        resource_steps(inputs) is Ok <==> host_steps(
            views(inputs.graphics@),
            Some(inputs.linux_compat@.1),
        ) is Ok && network_steps(
            host_mount_view(inputs.network),
            inputs.linux_compat@.1,
            views(inputs.graphics@),
        ) is Ok && host_steps(views(inputs.video@), None) is Ok,
        resource_steps(inputs) is Ok ==> forall|x: SetupView| #[trigger]
            (resource_steps(inputs)->Ok_0).contains(x) <==> in_resources(inputs, x),
{
    let compat = inputs.linux_compat@;
    let graphics = host_steps(views(inputs.graphics@), Some(compat.1));
    let network = network_steps(
        host_mount_view(inputs.network),
        compat.1,
        views(inputs.graphics@),
    );
    let bus: Result<Seq<SetupView>, Refused> = Ok(
        match inputs.system_bus {
            Some(mount) => shown_once(mount@),
            None => Seq::empty(),
        },
    );
    let video = host_steps(views(inputs.video@), None);
    let a: Result<Seq<SetupView>, Refused> = Ok(shown_once(compat));
    let b = and_then(a, graphics);
    let c = and_then(b, network);
    let d = and_then(c, bus);
    lemma_parts(a, graphics);
    lemma_parts(b, network);
    lemma_parts(c, bus);
    lemma_parts(d, video);
    assert(and_then(d, video) == resource_steps(inputs));
}

proof fn lemma_host_steps(mounts: Seq<(Seq<char>, Seq<char>)>, taken: Option<Seq<char>>)
    ensures
        host_steps(mounts, taken) is Ok <==> forall|i: int|
            0 <= i < mounts.len() ==> chroot_relative((#[trigger] mounts[i]).1) is Some,
        host_steps(mounts, taken) is Ok ==> forall|i: int|
            0 <= i < mounts.len() && !(taken is Some && same_path(
                chroot_relative((#[trigger] mounts[i]).1)->0,
                taken->0,
            )) ==> shows(
                host_steps(mounts, taken)->Ok_0,
                mounts[i].0,
                chroot_relative(mounts[i].1)->0,
                true,
            ),
        host_steps(mounts, taken) is Ok ==> forall|x: SetupView| #[trigger]
            (host_steps(mounts, taken)->Ok_0).contains(x) ==> exists|i: int|
                0 <= i < mounts.len() && chroot_relative((#[trigger] mounts[i]).1) is Some && x
                    == (SetupView::Show {
                    source: mounts[i].0,
                    target: chroot_relative(mounts[i].1)->0,
                    read_only: true,
                }),
    decreases mounts.len(),
{
    if mounts.len() > 0 {
        let head = mounts.drop_last();
        let last = mounts[mounts.len() - 1];
        lemma_host_steps(head, taken);
        assert forall|i: int| 0 <= i < head.len() implies head[i] == mounts[i] by {}
        if host_steps(mounts, taken) is Ok {
            let before = host_steps(head, taken)->Ok_0;
            let all = host_steps(mounts, taken)->Ok_0;
            let own = SetupView::Show {
                source: last.0,
                target: chroot_relative(last.1)->0,
                read_only: true,
            };
            assert forall|i: int| 0 <= i < mounts.len() implies chroot_relative(
                (#[trigger] mounts[i]).1,
            ) is Some by {
                if i < head.len() {
                    assert(chroot_relative(head[i].1) is Some);
                }
            }
            assert(all == before || all == before.push(own));
            assert forall|x: SetupView| #[trigger] before.contains(x) implies all.contains(x) by {
                let k = choose|k: int| 0 <= k < before.len() && before[k] == x;
                assert(all[k] == x);
            }
            assert forall|i: int|
                0 <= i < mounts.len() && !(taken is Some && same_path(
                    chroot_relative((#[trigger] mounts[i]).1)->0,
                    taken->0,
                )) implies shows(all, mounts[i].0, chroot_relative(mounts[i].1)->0, true) by {
                if i < head.len() {
                    assert(shows(before, head[i].0, chroot_relative(head[i].1)->0, true));
                } else {
                    assert(all[before.len() as int] == own);
                }
            }
            assert forall|x: SetupView| #[trigger] all.contains(x) implies exists|i: int|
                0 <= i < mounts.len() && chroot_relative((#[trigger] mounts[i]).1) is Some && x
                    == (SetupView::Show {
                    source: mounts[i].0,
                    target: chroot_relative(mounts[i].1)->0,
                    read_only: true,
                }) by {
                let k = choose|k: int| 0 <= k < all.len() && all[k] == x;
                if k < before.len() {
                    assert(before[k] == x);
                    assert(before.contains(x));
                    let i = choose|i: int|
                        0 <= i < head.len() && chroot_relative((#[trigger] head[i]).1) is Some && x
                            == (SetupView::Show {
                            source: head[i].0,
                            target: chroot_relative(head[i].1)->0,
                            read_only: true,
                        });
                    assert(mounts[i] == head[i]);
                } else {
                    assert(x == own);
                    assert(mounts[mounts.len() - 1] == last);
                }
            }
        } else if forall|i: int|
            0 <= i < mounts.len() ==> chroot_relative((#[trigger] mounts[i]).1) is Some {
            assert(chroot_relative(last.1) is Some);
            assert forall|i: int| 0 <= i < head.len() implies chroot_relative(
                (#[trigger] head[i]).1,
            ) is Some by {
                assert(head[i] == mounts[i]);
            }
        }
    } else {
        assert((host_steps(mounts, taken)->Ok_0) =~= Seq::empty());
    }
}

/// The files of the runtime are seen at `/usr` and those of the application at `/app`, where
/// neither can be changed. What the application keeps is seen at `/var/data`, `/var/config` and
/// `/var/cache`, where it can write: each directory is made before it is shown, and what tells the
/// application where the user's directories are is written before that too.
pub proof fn lemma_runtime_application_and_data_are_seen(inputs: SetupInputs, plan: Seq<SetupView>)
    requires
        setup_steps(inputs) == Ok::<Seq<SetupView>, Refused>(plan),
    ensures
        shows(plan, joined(inputs.runtime_dir@, "files"@), "usr"@, true),
        shows(plan, joined(inputs.app_dir@, "files"@), "app"@, true),
        forall|name: Seq<char>|
            name == "data"@ || name == "config"@ || name == "cache"@ ==> #[trigger] comes_before(
                plan,
                SetupView::CreateDirectory(joined(inputs.app_data@, name)),
                SetupView::Show {
                    source: joined(inputs.app_data@, name),
                    target: joined("var"@, name),
                    read_only: false,
                },
            ),
        comes_before(
            plan,
            SetupView::CreateDirectory(joined(inputs.app_data@, "config"@)),
            SetupView::WriteUserDirs(joined(inputs.app_data@, "config"@)),
        ),
        comes_before(
            plan,
            SetupView::WriteUserDirs(joined(inputs.app_data@, "config"@)),
            SetupView::Show {
                source: joined(inputs.app_data@, "config"@),
                target: joined("var"@, "config"@),
                read_only: false,
            },
        ),
{
    lemma_plan(inputs);
    let own = base_steps(inputs.app_dir@, inputs.runtime_dir@, inputs.app_data@);
    let base = own + extension_steps(views(inputs.app_extensions@));
    assert(own.len() == 9);
    assert forall|i: int| 0 <= i < 9 implies #[trigger] plan[i] == own[i] by {
        assert(base[i] == own[i]);
        assert(plan.take(base.len() as int)[i] == plan[i]);
    }
    assert(plan[0] == own[0] && plan[1] == own[1] && plan[2] == own[2] && plan[3] == own[3]
        && plan[4] == own[4] && plan[5] == own[5] && plan[6] == own[6] && plan[7] == own[7]
        && plan[8] == own[8]);
}

/// Every file of an extension, which lies in the directory `files` of its checkout, is seen below
/// `/app` where the extension is mounted, and cannot be changed there. The extension is mounted
/// over the application, not the other way round.
pub proof fn lemma_extensions_are_seen(inputs: SetupInputs, plan: Seq<SetupView>, i: int)
    requires
        setup_steps(inputs) == Ok::<Seq<SetupView>, Refused>(plan),
        0 <= i < inputs.app_extensions@.len(),
    ensures
        shows(
            plan,
            joined(inputs.app_extensions@[i].checkout_dir@, "files"@),
            joined("app"@, inputs.app_extensions@[i].app_mount_relative@),
            true,
        ),
        comes_before(
            plan,
            SetupView::Show {
                source: joined(inputs.app_dir@, "files"@),
                target: "app"@,
                read_only: true,
            },
            SetupView::Show {
                source: joined(inputs.app_extensions@[i].checkout_dir@, "files"@),
                target: joined("app"@, inputs.app_extensions@[i].app_mount_relative@),
                read_only: true,
            },
        ),
{
    lemma_plan(inputs);
    let own = base_steps(inputs.app_dir@, inputs.runtime_dir@, inputs.app_data@);
    let more = extension_steps(views(inputs.app_extensions@));
    let base = own + more;
    assert(own.len() == 9);
    assert(views(inputs.app_extensions@)[i] == inputs.app_extensions@[i]@);
    assert(base[9 + i] == more[i]);
    assert(base[1] == own[1]);
    assert(plan.take(base.len() as int)[9 + i] == plan[9 + i]);
    assert(plan.take(base.len() as int)[1] == plan[1]);
}

/// What of the host makes programs for Linux run, draw, play video and find their cursors and
/// fonts is seen at the path that it was given, where it cannot be changed. Only where the
/// compatibility layer stands nothing of the graphics is put.
pub proof fn lemma_resources_are_seen(inputs: SetupInputs, plan: Seq<SetupView>)
    requires
        setup_steps(inputs) == Ok::<Seq<SetupView>, Refused>(plan),
    ensures
        shows(plan, inputs.linux_compat.source@, inputs.linux_compat.target@, true),
        inputs.system_bus matches Some(bus) ==> shows(plan, bus.source@, bus.target@, true),
        forall|i: int|
            0 <= i < inputs.graphics@.len() ==> seen_at_its_path(
                plan,
                (#[trigger] inputs.graphics@[i]).host_path@,
                inputs.graphics@[i].sandbox_path@,
            ) || chroot_relative(inputs.graphics@[i].sandbox_path@) is Some && same_path(
                chroot_relative(inputs.graphics@[i].sandbox_path@)->0,
                inputs.linux_compat.target@,
            ),
        forall|i: int|
            0 <= i < inputs.video@.len() ==> seen_at_its_path(
                plan,
                (#[trigger] inputs.video@[i]).host_path@,
                inputs.video@[i].sandbox_path@,
            ),
        forall|i: int|
            0 <= i < inputs.cursor@.len() ==> seen_at_its_path(
                plan,
                (#[trigger] inputs.cursor@[i]).host_path@,
                inputs.cursor@[i].sandbox_path@,
            ),
        forall|i: int|
            0 <= i < inputs.fonts@.len() ==> seen_at_its_path(
                plan,
                (#[trigger] inputs.fonts@[i]).host_path@,
                inputs.fonts@[i].sandbox_path@,
            ),
        forall|i: int|
            0 <= i < inputs.sysfs@.len() ==> seen_at_its_path(
                plan,
                (#[trigger] inputs.sysfs@[i]).host_path@,
                inputs.sysfs@[i].sandbox_path@,
            ),
{
    let compat = inputs.linux_compat@;
    lemma_plan(inputs);
    lemma_resources(inputs);
    lemma_host_steps(views(inputs.graphics@), Some(compat.1));
    lemma_host_steps(views(inputs.video@), None);
    lemma_host_steps(views(inputs.cursor@), None);
    lemma_host_steps(views(inputs.fonts@), None);
    lemma_host_steps(views(inputs.sysfs@), None);
    let layer = SetupView::Show { source: compat.0, target: compat.1, read_only: true };
    assert(shown_once(compat)[0] == layer);
    assert(in_resources(inputs, layer));
    if let Some(bus) = inputs.system_bus {
        let step = SetupView::Show { source: bus.source@, target: bus.target@, read_only: true };
        assert(shown_once(bus@)[0] == step);
        assert(in_resources(inputs, step));
    }
    assert forall|i: int| 0 <= i < inputs.graphics@.len() implies seen_at_its_path(
        plan,
        (#[trigger] inputs.graphics@[i]).host_path@,
        inputs.graphics@[i].sandbox_path@,
    ) || chroot_relative(inputs.graphics@[i].sandbox_path@) is Some && same_path(
        chroot_relative(inputs.graphics@[i].sandbox_path@)->0,
        inputs.linux_compat.target@,
    ) by {
        let all = views(inputs.graphics@);
        assert(all[i] == inputs.graphics@[i]@);
        let target = chroot_relative(all[i].1)->0;
        if !same_path(target, compat.1) {
            assert(shows(host_steps(all, Some(compat.1))->Ok_0, all[i].0, target, true));
            assert(in_resources(
                inputs,
                SetupView::Show { source: all[i].0, target, read_only: true },
            ));
        }
    }
    assert forall|i: int| 0 <= i < inputs.video@.len() implies seen_at_its_path(
        plan,
        (#[trigger] inputs.video@[i]).host_path@,
        inputs.video@[i].sandbox_path@,
    ) by {
        let all = views(inputs.video@);
        assert(all[i] == inputs.video@[i]@);
        let target = chroot_relative(all[i].1)->0;
        assert(shows(host_steps(all, None)->Ok_0, all[i].0, target, true));
        assert(in_resources(inputs, SetupView::Show { source: all[i].0, target, read_only: true }));
    }
    assert forall|i: int| 0 <= i < inputs.cursor@.len() implies seen_at_its_path(
        plan,
        (#[trigger] inputs.cursor@[i]).host_path@,
        inputs.cursor@[i].sandbox_path@,
    ) by {
        let all = views(inputs.cursor@);
        assert(all[i] == inputs.cursor@[i]@);
        let target = chroot_relative(all[i].1)->0;
        assert(shows(host_steps(all, None)->Ok_0, all[i].0, target, true));
        assert(in_rest(inputs, SetupView::Show { source: all[i].0, target, read_only: true }));
    }
    assert forall|i: int| 0 <= i < inputs.fonts@.len() implies seen_at_its_path(
        plan,
        (#[trigger] inputs.fonts@[i]).host_path@,
        inputs.fonts@[i].sandbox_path@,
    ) by {
        let all = views(inputs.fonts@);
        assert(all[i] == inputs.fonts@[i]@);
        let target = chroot_relative(all[i].1)->0;
        assert(shows(host_steps(all, None)->Ok_0, all[i].0, target, true));
        assert(in_rest(inputs, SetupView::Show { source: all[i].0, target, read_only: true }));
    }
    assert forall|i: int| 0 <= i < inputs.sysfs@.len() implies seen_at_its_path(
        plan,
        (#[trigger] inputs.sysfs@[i]).host_path@,
        inputs.sysfs@[i].sandbox_path@,
    ) by {
        let all = views(inputs.sysfs@);
        assert(all[i] == inputs.sysfs@[i]@);
        let target = chroot_relative(all[i].1)->0;
        assert(shows(host_steps(all, None)->Ok_0, all[i].0, target, true));
        assert(in_rest(inputs, SetupView::Show { source: all[i].0, target, read_only: true }));
    }
}

/// What makes the network work is seen at its path, unless the compatibility layer or the graphics
/// stand there.
pub proof fn lemma_network_is_seen(inputs: SetupInputs, plan: Seq<SetupView>)
    requires
        setup_steps(inputs) == Ok::<Seq<SetupView>, Refused>(plan),
        inputs.network is Some,
    ensures
        chroot_relative((inputs.network->0).sandbox_path@) matches Some(target) && (shows(
            plan,
            (inputs.network->0).host_path@,
            target,
            true,
        ) || same_path(target, inputs.linux_compat.target@) || exists|i: int|
            0 <= i < inputs.graphics@.len() && (chroot_relative(
                (#[trigger] inputs.graphics@[i]).sandbox_path@,
            ) matches Some(place) && same_path(place, target))),
{
    lemma_plan(inputs);
    lemma_resources(inputs);
    let compat = inputs.linux_compat@;
    let all = views(inputs.graphics@);
    let mount = (inputs.network->0)@;
    let target = chroot_relative(mount.1)->0;
    let steps = network_steps(host_mount_view(inputs.network), compat.1, all)->Ok_0;
    let step = SetupView::Show { source: mount.0, target, read_only: true };
    if same_path(target, compat.1) {
    } else if crate::chroot_backend::shows_at(all, target) {
        let i = choose|i: int|
            0 <= i < all.len() && (chroot_relative((#[trigger] all[i]).1) matches Some(place)
                && same_path(place, target));
        assert(all[i] == inputs.graphics@[i]@);
        assert(chroot_relative(inputs.graphics@[i].sandbox_path@) is Some);
    } else {
        assert(steps[0] == step);
        assert(in_resources(inputs, step));
    }
}

/// The directory of the session is seen at `/run/user/<uid>`, where the application can write, and
/// the documents that the portal hands out below it, where it cannot; the portal serves the
/// sandbox once they are there. The system's directory for what is temporary is shared, and
/// devices, descriptors, shared memory, processes and the kernel are seen at their places, those
/// below `/dev` after `/dev` itself.
pub proof fn lemma_session_and_system_are_seen(inputs: SetupInputs, plan: Seq<SetupView>)
    requires
        setup_steps(inputs) == Ok::<Seq<SetupView>, Refused>(plan),
    ensures
        shows(
            plan,
            inputs.xdg_runtime_dir@,
            "run/user/"@ + decimal(inputs.uid as nat),
            false,
        ),
        inputs.doc_dir matches Some(directory) ==> shows(
            plan,
            directory@,
            "run/user/"@ + decimal(inputs.uid as nat) + "/doc"@,
            true,
        ) && plan.contains(SetupView::AttachPortal),
        inputs.doc_dir is None ==> !plan.contains(SetupView::AttachPortal),
        shows(plan, "/tmp"@, "tmp"@, false),
        plan.contains(SetupView::Special { target: "dev"@, fs_type: "devfs"@ }),
        plan.contains(SetupView::Special { target: "dev/fd"@, fs_type: "fdescfs"@ }),
        plan.contains(SetupView::Tmpfs { target: "dev/shm"@, options: "mode=1777"@ }),
        plan.contains(SetupView::Special { target: "proc"@, fs_type: "linprocfs"@ }),
        plan.contains(SetupView::Special { target: "sys"@, fs_type: "linsysfs"@ }),
{
    lemma_plan(inputs);
    let session = session_steps(
        inputs.xdg_runtime_dir@,
        crate::mount_operations::optional_text(inputs.doc_dir),
        inputs.uid,
    );
    let place = "run/user/"@ + decimal(inputs.uid as nat);
    let own = SetupView::Show { source: inputs.xdg_runtime_dir@, target: place, read_only: false };
    assert(session[0] == own);
    assert(in_rest(inputs, own));
    if let Some(directory) = inputs.doc_dir {
        let documents = SetupView::Show {
            source: directory@,
            target: place + "/doc"@,
            read_only: true,
        };
        assert(session[1] == documents);
        assert(in_rest(inputs, documents));
        assert(session[2] == SetupView::AttachPortal);
        assert(in_rest(inputs, SetupView::AttachPortal));
    } else if plan.contains(SetupView::AttachPortal) {
        lemma_every_step(inputs, SetupView::AttachPortal);
    }
    let system = system_steps();
    assert forall|i: int| 0 <= i < system.len() implies in_rest(inputs, #[trigger] system[i]) by {
        assert(system.contains(system[i]));
    }
    assert(in_rest(inputs, system[0]) && in_rest(inputs, system[1]) && in_rest(inputs, system[2])
        && in_rest(inputs, system[3]) && in_rest(inputs, system[4]) && in_rest(
        inputs,
        system[5],
    ));
}

/// Whether a step mounts something of a list of the host's.
spec fn from_host(mounts: Seq<(Seq<char>, Seq<char>)>, x: SetupView) -> bool {
    exists|i: int|
        0 <= i < mounts.len() && x == (SetupView::Show {
            source: (#[trigger] mounts[i]).0,
            target: chroot_relative(mounts[i].1)->0,
            read_only: true,
        })
}

/// Whether a step mounts what was granted.
spec fn from_grant(grants: Seq<GrantView>, x: SetupView) -> bool {
    exists|i: int|
        0 <= i < grants.len() && x == (SetupView::Show {
            source: (#[trigger] grants[i]).host_path,
            target: chroot_relative(grants[i].sandbox_path)->0,
            read_only: grants[i].access == AccessMode::ReadOnly,
        })
}

spec fn is_mask(plan: FlatpakDataMountPlan, uid: u32, gid: u32, x: SetupView) -> bool {
    exists|i: int|
        0 <= i < hidden_roots(plan).len() && x == (SetupView::Tmpfs {
            target: below_root(#[trigger] hidden_roots(plan)[i])->0,
            options: mask_options(uid, gid),
        })
}

proof fn lemma_data(plan: FlatpakDataMountPlan, uid: u32, gid: u32)
    requires
        data_steps(plan, uid, gid) is Ok,
    ensures
        forall|x: SetupView| #[trigger]
            (data_steps(plan, uid, gid)->Ok_0).contains(x) ==> from_grant(
                views(plan.grants_before_mask@),
                x,
            ) || from_grant(views(plan.grants_after_mask@), x) || is_mask(plan, uid, gid, x) || x
                == (SetupView::Show {
                source: plan.app_data@,
                target: below_root(plan.app_data@)->0,
                read_only: false,
            }),
{
    crate::chroot_backend::lemma_hidden_between_grants(plan, uid, gid);
    let steps = data_steps(plan, uid, gid)->Ok_0;
    let before = views(plan.grants_before_mask@);
    let after = views(plan.grants_after_mask@);
    let hidden = hidden_roots(plan);
    lemma_grants_keep_their_access(before);
    lemma_grants_keep_their_access(after);
    let n = before.len() as int;
    let m = n + hidden.len();
    assert(grant_steps(before) is Ok && grant_steps(after) is Ok);
    assert forall|x: SetupView| #[trigger] steps.contains(x) implies from_grant(before, x)
        || from_grant(after, x) || is_mask(plan, uid, gid, x) || x == (SetupView::Show {
        source: plan.app_data@,
        target: below_root(plan.app_data@)->0,
        read_only: false,
    }) by {
        let k = choose|k: int| 0 <= k < steps.len() && steps[k] == x;
        if k < n {
            assert(x == (grant_steps(before)->Ok_0)[k]);
            assert(before[k].host_path == before[k].host_path);
            assert(from_grant(before, x));
        } else if k < m {
            assert(hidden[k - n] == hidden_roots(plan)[k - n]);
            assert(is_mask(plan, uid, gid, x));
        } else if k < m + after.len() {
            assert(x == (grant_steps(after)->Ok_0)[k - m]);
            assert(after[k - m].host_path == after[k - m].host_path);
            assert(from_grant(after, x));
        } else {
            assert(x == steps.last());
        }
    }
}

/// Every step of a plan mounts one of the things that it was made for.
proof fn lemma_every_step(inputs: SetupInputs, x: SetupView)
    requires
        setup_steps(inputs) is Ok,
        (setup_steps(inputs)->Ok_0).contains(x),
    ensures
        in_base(inputs, x) || x == (SetupView::Show {
            source: inputs.linux_compat.source@,
            target: inputs.linux_compat.target@,
            read_only: true,
        }) || from_host(views(inputs.graphics@), x) || (inputs.network is Some && x == (
        SetupView::Show {
            source: (inputs.network->0).host_path@,
            target: chroot_relative((inputs.network->0).sandbox_path@)->0,
            read_only: true,
        })) || (inputs.system_bus is Some && x == (SetupView::Show {
            source: (inputs.system_bus->0).source@,
            target: (inputs.system_bus->0).target@,
            read_only: true,
        })) || from_host(views(inputs.video@), x) || from_host(views(inputs.cursor@), x)
            || from_host(views(inputs.fonts@), x) || from_host(views(inputs.sysfs@), x)
            || from_grant(views(inputs.data_plan.grants_before_mask@), x) || from_grant(
            views(inputs.data_plan.grants_after_mask@),
            x,
        ) || is_mask(inputs.data_plan, inputs.uid, inputs.gid, x) || x == (SetupView::Show {
            source: inputs.data_plan.app_data@,
            target: below_root(inputs.data_plan.app_data@)->0,
            read_only: false,
        }) || projection_steps(inputs.projection).contains(x) || session_steps(
            inputs.xdg_runtime_dir@,
            crate::mount_operations::optional_text(inputs.doc_dir),
            inputs.uid,
        ).contains(x) || system_steps().contains(x),
{
    lemma_plan(inputs);
    lemma_resources(inputs);
    let compat = inputs.linux_compat@;
    lemma_host_steps(views(inputs.graphics@), Some(compat.1));
    lemma_host_steps(views(inputs.video@), None);
    lemma_host_steps(views(inputs.cursor@), None);
    lemma_host_steps(views(inputs.fonts@), None);
    lemma_host_steps(views(inputs.sysfs@), None);
    lemma_data(inputs.data_plan, inputs.uid, inputs.gid);
    if in_base(inputs, x) {
    } else if (resource_steps(inputs)->Ok_0).contains(x) {
        assert(in_resources(inputs, x));
    } else if in_rest(inputs, x) {
    }
}

/// An application can write nowhere but where it keeps its data, through what it was granted to
/// write, in the directory of the session and in that for what is temporary.
pub proof fn lemma_only_these_can_be_written(
    inputs: SetupInputs,
    plan: Seq<SetupView>,
    source: Seq<char>,
    target: Seq<char>,
)
    requires
        setup_steps(inputs) == Ok::<Seq<SetupView>, Refused>(plan),
        shows(plan, source, target, false),
    ensures
        ({
            let granted = inputs.data_plan.grants_before_mask@
                + inputs.data_plan.grants_after_mask@;
            ||| source == joined(inputs.app_data@, "data"@) && target == joined("var"@, "data"@)
            ||| source == joined(inputs.app_data@, "config"@) && target == joined(
                "var"@,
                "config"@,
            )
            ||| source == joined(inputs.app_data@, "cache"@) && target == joined("var"@, "cache"@)
            ||| source == inputs.data_plan.app_data@
            ||| source == inputs.xdg_runtime_dir@ && target == "run/user/"@ + decimal(
                inputs.uid as nat,
            )
            ||| source == "/tmp"@ && target == "tmp"@
            ||| exists|i: int|
                0 <= i < granted.len() && (#[trigger] granted[i]).access == AccessMode::ReadWrite
                    && source == granted[i].host_path@ && chroot_relative(
                    granted[i].sandbox_path@,
                ) == Some(target)
        }),
{
    let x = SetupView::Show { source, target, read_only: false };
    lemma_every_step(inputs, x);
    let first = inputs.data_plan.grants_before_mask@;
    let second = inputs.data_plan.grants_after_mask@;
    let granted = first + second;
    lemma_plan(inputs);
    lemma_grants_are_placed(inputs.data_plan, inputs.uid, inputs.gid);
    if from_grant(views(first), x) {
        let all = views(first);
        let i = choose|i: int|
            0 <= i < all.len() && x == (SetupView::Show {
                source: (#[trigger] all[i]).host_path,
                target: chroot_relative(all[i].sandbox_path)->0,
                read_only: all[i].access == AccessMode::ReadOnly,
            });
        assert(all[i] == first[i]@);
        assert(granted[i] == first[i]);
        assert(granted[i].access == AccessMode::ReadWrite);
    } else if from_grant(views(second), x) {
        let all = views(second);
        let i = choose|i: int|
            0 <= i < all.len() && x == (SetupView::Show {
                source: (#[trigger] all[i]).host_path,
                target: chroot_relative(all[i].sandbox_path)->0,
                read_only: all[i].access == AccessMode::ReadOnly,
            });
        assert(all[i] == second[i]@);
        assert(granted[first.len() + i] == second[i]);
        assert(granted[first.len() + i].access == AccessMode::ReadWrite);
    } else if in_base(inputs, x) {
        let own = base_steps(inputs.app_dir@, inputs.runtime_dir@, inputs.app_data@);
        assert(own.len() == 9);
        if own.contains(x) {
            let k = choose|k: int| 0 <= k < own.len() && own[k] == x;
            assert(k == 6 || k == 7 || k == 8);
        }
    } else if projection_steps(inputs.projection).contains(x) {
        let steps = projection_steps(inputs.projection);
        let k = choose|k: int| 0 <= k < steps.len() && steps[k] == x;
        let p = inputs.projection->0;
        if k > 0 {
            assert(steps[k] == deployment_steps(views(p.deployments@))[k - 1]);
        }
    }
}

proof fn lemma_grants_are_placed(plan: FlatpakDataMountPlan, uid: u32, gid: u32)
    requires
        data_steps(plan, uid, gid) is Ok,
    ensures
        forall|i: int|
            0 <= i < plan.grants_before_mask@.len() ==> chroot_relative(
                (#[trigger] plan.grants_before_mask@[i]).sandbox_path@,
            ) is Some,
        forall|i: int|
            0 <= i < plan.grants_after_mask@.len() ==> chroot_relative(
                (#[trigger] plan.grants_after_mask@[i]).sandbox_path@,
            ) is Some,
{
    let before = views(plan.grants_before_mask@);
    let after = views(plan.grants_after_mask@);
    lemma_grant_steps_ok(before);
    lemma_grant_steps_ok(after);
    assert(grant_steps(before) is Ok && grant_steps(after) is Ok);
    assert forall|i: int| 0 <= i < plan.grants_before_mask@.len() implies chroot_relative(
        (#[trigger] plan.grants_before_mask@[i]).sandbox_path@,
    ) is Some by {
        assert(before[i] == plan.grants_before_mask@[i]@);
    }
    assert forall|i: int| 0 <= i < plan.grants_after_mask@.len() implies chroot_relative(
        (#[trigger] plan.grants_after_mask@[i]).sandbox_path@,
    ) is Some by {
        assert(after[i] == plan.grants_after_mask@[i]@);
    }
}

proof fn lemma_grant_steps_ok(grants: Seq<GrantView>)
    ensures
        grant_steps(grants) is Ok <==> forall|i: int|
            0 <= i < grants.len() ==> chroot_relative((#[trigger] grants[i]).sandbox_path) is Some,
    decreases grants.len(),
{
    if grants.len() > 0 {
        let head = grants.drop_last();
        lemma_grant_steps_ok(head);
        assert forall|i: int| 0 <= i < head.len() implies head[i] == grants[i] by {}
        if grant_steps(grants) is Ok {
            assert forall|i: int| 0 <= i < grants.len() implies chroot_relative(
                (#[trigger] grants[i]).sandbox_path,
            ) is Some by {
                if i < head.len() {
                    assert(chroot_relative(head[i].sandbox_path) is Some);
                }
            }
        } else if forall|i: int|
            0 <= i < grants.len() ==> chroot_relative((#[trigger] grants[i]).sandbox_path)
                is Some {
            assert(chroot_relative(grants[grants.len() - 1].sandbox_path) is Some);
            assert forall|i: int| 0 <= i < head.len() implies chroot_relative(
                (#[trigger] head[i]).sandbox_path,
            ) is Some by {
                assert(head[i] == grants[i]);
            }
        }
    }
}

} // verus!
