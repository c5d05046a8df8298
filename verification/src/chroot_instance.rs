//! A sandbox while it is there: starting the application in it, and taking it down.

use crate::application_entrypoint::{
    added_args, decimals, join_numeric_ids, launch_args, push_texts, EntryLaunch, FlatpakApp,
};
use crate::apply_extra::push_arg;
use crate::architecture::{
    runtime_architecture, FlatpakArchitecture, UnsupportedArchitecture,
};
use crate::extensions::{app_extension_ld_paths, library_paths, AppExtension};
use crate::file_argument_translation::{path_text, ArgumentError, Surroundings};
use crate::flatpak_metadata::{last_value, pair_texts};
use crate::host_filesystem::{
    arg_refused, dir_variables, first_refused, given_args, shows_home, translation, unseen_args,
    HostFilesystem,
};
use crate::launch_environment::{
    apply_graphics_preloads, apply_unset_environment, base_variables, environment_entries,
    extend_env, first_value, launch_env, lemma_set_first, merge_env, merged_env, metadata_env,
    metadata_runtime_dirs, prepend_env_paths, push_env, remove_env, session_variables, updates_of,
    with_graphics_preloads, with_paths_before, without_unset, without_variable, SessionSettings,
};
use crate::mount_operations::{
    owned_mount_teardown_order, teardown_le, MountView, OwnedMount,
};
use crate::mount_planner::MountTable;
use crate::numbers::{decimal, render_u64};
use crate::order::sorted;
use crate::path::{path_texts, within, FsPath};
use crate::recovery_order::{is_named, names};
use crate::state::AppRecord;
use crate::text::{
    concat3, join, lemma_selected, lemma_texts_push, lemma_views_push, selected, texts, views,
};
use vstd::prelude::*;

verus! {

/// What the resources of the host add to the environment of an application.
#[derive(Debug)]
pub struct HostEnvironment {
    pub audio: Vec<(String, String)>,
    pub cursor: Vec<(String, String)>,
    pub cursor_config_dirs: Vec<String>,
    pub portal: Vec<(String, String)>,
    pub graphics: Vec<(String, String)>,
    pub ld_preload_paths: Vec<String>,
    pub zypak_ld_preload_paths: Vec<String>,
    pub network_preload_paths: Vec<String>,
    pub video_library_paths: Vec<String>,
    pub video: Vec<(String, String)>,
}

/// The home directory that the sandbox shows.
pub open spec fn shown_home(host: HostFilesystem, fallback: Seq<char>) -> Seq<char> {
    if exists|i: int|
        0 <= i < host.grants@.len() && shows_home(
            (#[trigger] host.grants@[i])@,
            host.sandbox_home@,
        ) {
        host.sandbox_home@
    } else {
        fallback
    }
}

/// The variables of the session, of the user's directories and of the host's services.
pub open spec fn service_variables(
    start: Seq<(Seq<char>, Seq<char>)>,
    host: HostFilesystem,
    resources: HostEnvironment,
) -> Seq<(Seq<char>, Seq<char>)> {
    let at_home = without_variable(start, "HOME"@).push(
        ("HOME"@, shown_home(host, "/var/data"@)),
    );
    let with_dirs = at_home + dir_variables(views(host.grants@), 8);
    let with_sound = with_dirs + pair_texts(resources.audio@) + pair_texts(resources.cursor@);
    with_paths_before(with_sound, "XDG_CONFIG_DIRS"@, texts(resources.cursor_config_dirs@))
        + pair_texts(resources.portal@)
}

/// The variables after the metadata of the runtime and of the application has been read.
pub open spec fn declared_variables(
    env: Seq<(Seq<char>, Seq<char>)>,
    runtime_metadata: Seq<char>,
    effective_metadata: Seq<char>,
) -> Seq<(Seq<char>, Seq<char>)> {
    without_unset(
        merged_env(
            env,
            updates_of(env, environment_entries(runtime_metadata, effective_metadata)),
        ),
        effective_metadata,
    )
}

/// The variables with what graphics, network, video and extensions need; the metadata cannot take
/// these away.
pub open spec fn resource_variables(
    env: Seq<(Seq<char>, Seq<char>)>,
    resources: HostEnvironment,
    extensions: Seq<AppExtension>,
) -> Seq<(Seq<char>, Seq<char>)> {
    let network = texts(resources.network_preload_paths@);
    let drawn = with_graphics_preloads(
        merged_env(env, pair_texts(resources.graphics@)),
        texts(resources.ld_preload_paths@),
        texts(resources.zypak_ld_preload_paths@),
    );
    let connected = with_paths_before(
        with_paths_before(drawn, "LD_PRELOAD"@, network),
        "ZYPAK_LD_PRELOAD"@,
        network,
    );
    let linked = with_paths_before(
        with_paths_before(
            connected,
            "LD_LIBRARY_PATH"@,
            texts(resources.video_library_paths@),
        ),
        "LD_LIBRARY_PATH"@,
        library_paths("/app"@, views(extensions)),
    );
    merged_env(linked, pair_texts(resources.video@))
}

/// The environment that an application is started with.
pub fn launch_environment(
    app: &FlatpakApp,
    session: &SessionSettings,
    uid: u32,
    user: &str,
    data_home: &FsPath,
    host: &HostFilesystem,
    resources: &HostEnvironment,
    extensions: &[AppExtension],
    runtime_metadata: &str,
    effective_metadata: &str,
) -> (r: Result<Vec<(String, String)>, UnsupportedArchitecture>)
    ensures
        match (r, runtime_architecture(app.runtime_ref@)) {
            (Ok(env), Some(architecture)) => pair_texts(env@) == resource_variables(
                declared_variables(
                    service_variables(
                        session_variables(
                            base_variables(
                                app.app_id@,
                                session.wayland_display@,
                                architecture,
                                uid,
                                user@,
                                data_home@,
                            ),
                            *session,
                        ),
                        *host,
                        *resources,
                    ),
                    runtime_metadata@,
                    effective_metadata@,
                ),
                *resources,
                extensions@,
            ),
            (Err(_), None) => true,
            _ => false,
        },
{
    let mut env = launch_env(app, session, uid, user, data_home)?;
    let ghost start = pair_texts(env@);
    let home = host.sandbox_home_env("/var/data");
    let dirs = host.user_dir_env();
    remove_env(&mut env, "HOME");
    push_env(&mut env, "HOME", &home);
    extend_env(&mut env, dirs.as_slice());
    extend_env(&mut env, resources.audio.as_slice());
    extend_env(&mut env, resources.cursor.as_slice());
    prepend_env_paths(&mut env, "XDG_CONFIG_DIRS", resources.cursor_config_dirs.as_slice());
    extend_env(&mut env, resources.portal.as_slice());
    assert(pair_texts(env@) == service_variables(start, *host, *resources));
    let ghost served = pair_texts(env@);
    let declared = metadata_env(runtime_metadata, effective_metadata, env.as_slice());
    merge_env(&mut env, declared.as_slice());
    apply_unset_environment(&mut env, effective_metadata);
    assert(pair_texts(env@) == declared_variables(served, runtime_metadata@, effective_metadata@));
    let ghost told = pair_texts(env@);
    merge_env(&mut env, resources.graphics.as_slice());
    apply_graphics_preloads(
        &mut env,
        resources.ld_preload_paths.as_slice(),
        resources.zypak_ld_preload_paths.as_slice(),
    );
    prepend_env_paths(&mut env, "LD_PRELOAD", resources.network_preload_paths.as_slice());
    prepend_env_paths(&mut env, "ZYPAK_LD_PRELOAD", resources.network_preload_paths.as_slice());
    prepend_env_paths(&mut env, "LD_LIBRARY_PATH", resources.video_library_paths.as_slice());
    let libraries = app_extension_ld_paths(extensions);
    prepend_env_paths(&mut env, "LD_LIBRARY_PATH", libraries.as_slice());
    merge_env(&mut env, resources.video.as_slice());
    assert(pair_texts(env@) == resource_variables(told, *resources, extensions@));
    Ok(env)
}

/// After merging, a variable has its last value among the updates, or the one that it had where
/// they do not name it.
pub proof fn lemma_merge_wins(
    env: Seq<(Seq<char>, Seq<char>)>,
    updates: Seq<(Seq<char>, Seq<char>)>,
    key: Seq<char>,
)
    ensures
        first_value(merged_env(env, updates), key) == (match last_value(updates, key) {
            Some(value) => Some(value),
            None => first_value(env, key),
        }),
    decreases updates.len(),
{
    if updates.len() > 0 {
        lemma_merge_wins(env, updates.drop_last(), key);
        lemma_set_first(
            merged_env(env, updates.drop_last()),
            updates.last().0,
            updates.last().1,
            key,
        );
    }
}

/// The variables as arguments.
pub open spec fn assignments(env: Seq<(Seq<char>, Seq<char>)>) -> Seq<Seq<char>> {
    Seq::new(env.len(), |i: int| env[i].0 + "="@ + env[i].1)
}

/// The options that name the user and the groups.
pub open spec fn identity_args(uid: u32, gid: u32, groups: Seq<u32>) -> Seq<Seq<char>> {
    let base = seq![
        "chroot"@,
        "-u"@,
        decimal(uid as nat),
        "-g"@,
        decimal(gid as nat),
    ];
    if groups.len() > 0 {
        base.push("-G"@).push(join(decimals(groups), ","@))
    } else {
        base
    }
}

/// What starts an application in its sandbox, with nothing in its environment but the variables.
pub open spec fn launch_command_args(
    uid: u32,
    gid: u32,
    groups: Seq<u32>,
    root: Seq<char>,
    env: Seq<(Seq<char>, Seq<char>)>,
    entry: Seq<char>,
    args: Seq<Seq<char>>,
) -> Seq<Seq<char>> {
    identity_args(uid, gid, groups) + seq![root, "/usr/bin/env"@, "-i"@] + assignments(env)
        + seq![entry] + args
}

/// What starts an application in its sandbox.
pub fn launch_command(
    uid: u32,
    gid: u32,
    supplementary_gids: &[u32],
    root: &FsPath,
    env: &[(String, String)],
    entry: &EntryLaunch,
    args: &[String],
) -> (r: Vec<String>)
    ensures
        texts(r@) == launch_command_args(
            uid,
            gid,
            supplementary_gids@,
            root@,
            pair_texts(env@),
            entry.chroot_path@,
            texts(args@),
        ),
{
    let user = render_u64(uid as u64);
    let group = render_u64(gid as u64);
    let mut out: Vec<String> = Vec::new();
    assert(texts(out@) =~= Seq::<Seq<char>>::empty());
    push_arg(&mut out, "chroot");
    push_arg(&mut out, "-u");
    push_arg(&mut out, &user);
    push_arg(&mut out, "-g");
    push_arg(&mut out, &group);
    if supplementary_gids.len() > 0 {
        let groups = join_numeric_ids(supplementary_gids);
        push_arg(&mut out, "-G");
        push_arg(&mut out, &groups);
    }
    assert(texts(out@) =~= identity_args(uid, gid, supplementary_gids@));
    push_arg(&mut out, root.as_str());
    push_arg(&mut out, "/usr/bin/env");
    push_arg(&mut out, "-i");
    let ghost start = texts(out@);
    assert(start =~= identity_args(uid, gid, supplementary_gids@) + seq![
        root@,
        "/usr/bin/env"@,
        "-i"@,
    ]);
    let ghost all = assignments(pair_texts(env@));
    let mut i: usize = 0;
    assert(start + all.take(0) =~= start);
    while i < env.len()
        invariant
            i <= env@.len(),
            all == assignments(pair_texts(env@)),
            texts(out@) == start + all.take(i as int),
        decreases env@.len() - i,
    {
        let text = concat3(&env[i].0, "=", &env[i].1);
        push_arg(&mut out, &text);
        assert(all[i as int] == text@);
        assert(texts(out@) =~= start + all.take(i + 1));
        i += 1;
    }
    assert(all.take(i as int) =~= all);
    let command = entry.command_args(args);
    push_texts(&mut out, command.as_slice());
    assert(texts(out@) =~= launch_command_args(
        uid,
        gid,
        supplementary_gids@,
        root@,
        pair_texts(env@),
        entry.chroot_path@,
        texts(args@),
    ));
    out
}

/// A sandbox that is ready for its application.
#[derive(Debug)]
pub struct ChrootInstance {
    pub instance_id: String,
    pub uid: u32,
    pub gid: u32,
    pub supplementary_gids: Vec<u32>,
    pub host_filesystem: HostFilesystem,
    pub effective_metadata: String,
    pub resources: HostEnvironment,
    pub app_extensions: Vec<AppExtension>,
    pub mounts: MountTable,
    pub run_record: FsPath,
    pub deployment: AppRecord,
    pub extension_refs: Vec<String>,
}

/// What a launch knows of where it was started.
#[derive(Debug)]
pub struct LaunchSetting {
    pub session: SessionSettings,
    pub user: String,
    pub data_home: FsPath,
    pub xdg_runtime_dir: FsPath,
    pub runtime_metadata: String,
    /// The metadata of the application as it was deployed.
    pub app_metadata: String,
    pub around: Surroundings,
}

/// How an application is started.
#[derive(Debug)]
pub struct LaunchPlan {
    pub environment: Vec<(String, String)>,
    /// The directories of the host that are made first.
    pub runtime_dirs: Vec<FsPath>,
    pub command: Vec<String>,
    /// The arguments that name files which the application does not see.
    pub unseen: Vec<String>,
}

#[derive(Debug)]
pub enum LaunchFailure {
    Architecture,
    /// An argument cannot be read. The directories of the host are made all the same.
    Argument { runtime_dirs: Vec<FsPath>, error: ArgumentError },
}

impl ChrootInstance {
    /// The environment that the application is started with, on an architecture.
    pub open spec fn environment(
        self,
        app: FlatpakApp,
        setting: LaunchSetting,
        architecture: FlatpakArchitecture,
    ) -> Seq<(Seq<char>, Seq<char>)> {
        resource_variables(
            declared_variables(
                service_variables(
                    session_variables(
                        base_variables(
                            app.app_id@,
                            setting.session.wayland_display@,
                            architecture,
                            self.uid,
                            setting.user@,
                            setting.data_home@,
                        ),
                        setting.session,
                    ),
                    self.host_filesystem,
                    self.resources,
                ),
                setting.runtime_metadata@,
                self.effective_metadata@,
            ),
            self.resources,
            self.app_extensions@,
        )
    }

    /// The arguments of the user, as the sandbox is given them.
    pub open spec fn user_args(self, app: FlatpakApp, setting: LaunchSetting) -> Seq<Seq<char>> {
        given_args(
            views(self.host_filesystem.grants@),
            texts(app.args@),
            path_text(setting.around.home),
            path_text(setting.around.current_dir),
        )
    }

    /// Whether an argument of the user is the first that cannot be read.
    pub open spec fn refuses_arg(self, app: FlatpakApp, setting: LaunchSetting, i: int) -> bool {
        first_refused(
            views(self.host_filesystem.grants@),
            texts(app.args@),
            path_text(setting.around.home),
            path_text(setting.around.current_dir),
            i,
        )
    }

    /// How the application is started in this sandbox.
    pub fn launch(&self, app: &FlatpakApp, setting: &LaunchSetting, entry: &EntryLaunch) -> (r:
        Result<LaunchPlan, LaunchFailure>)
        ensures
            match (r, runtime_architecture(app.runtime_ref@)) {
                (Err(LaunchFailure::Architecture), None) => true,
                (Err(LaunchFailure::Argument { runtime_dirs, error }), Some(architecture)) => {
                    &&& path_texts(runtime_dirs@) == crate::launch_environment::runtime_dirs(
                        self.environment(*app, *setting, architecture),
                        setting.xdg_runtime_dir@,
                        self.uid,
                        app.app_id@,
                    )
                    &&& exists|i: int| #[trigger]
                        self.refuses_arg(*app, *setting, i) && arg_refused(
                            error,
                            texts(app.args@)[i],
                            path_text(setting.around.home),
                            path_text(setting.around.current_dir),
                        )
                },
                (Ok(plan), Some(architecture)) => {
                    &&& forall|i: int| !#[trigger] self.refuses_arg(*app, *setting, i)
                    &&& pair_texts(plan.environment@) == self.environment(
                        *app,
                        *setting,
                        architecture,
                    )
                    &&& path_texts(plan.runtime_dirs@) == crate::launch_environment::runtime_dirs(
                        self.environment(*app, *setting, architecture),
                        setting.xdg_runtime_dir@,
                        self.uid,
                        app.app_id@,
                    )
                    &&& texts(plan.command@) == launch_command_args(
                        self.uid,
                        self.gid,
                        self.supplementary_gids@,
                        self.mounts.root@,
                        self.environment(*app, *setting, architecture),
                        entry.chroot_path@,
                        added_args(setting.app_metadata@, self.user_args(*app, *setting))
                            + self.user_args(*app, *setting),
                    )
                    &&& texts(plan.unseen@) == unseen_args(
                        views(self.host_filesystem.grants@),
                        texts(app.args@),
                        path_text(setting.around.home),
                        path_text(setting.around.current_dir),
                    )
                },
                _ => false,
            },
    {
        let environment = match launch_environment(
            app,
            &setting.session,
            self.uid,
            &setting.user,
            &setting.data_home,
            &self.host_filesystem,
            &self.resources,
            self.app_extensions.as_slice(),
            &setting.runtime_metadata,
            &self.effective_metadata,
        ) {
            Ok(environment) => environment,
            Err(_) => {
                return Err(LaunchFailure::Architecture);
            },
        };
        let runtime_dirs = metadata_runtime_dirs(
            environment.as_slice(),
            &setting.xdg_runtime_dir,
            self.uid,
            &app.app_id,
        );
        let translated = match self.host_filesystem.translate_args(
            app.args.as_slice(),
            &setting.around,
        ) {
            Ok(translated) => translated,
            Err(error) => {
                proof {
                    let i = choose|i: int| #[trigger]
                        first_refused(
                            views(self.host_filesystem.grants@),
                            texts(app.args@),
                            path_text(setting.around.home),
                            path_text(setting.around.current_dir),
                            i,
                        ) && arg_refused(
                            error,
                            texts(app.args@)[i],
                            path_text(setting.around.home),
                            path_text(setting.around.current_dir),
                        );
                    assert(self.refuses_arg(*app, *setting, i));
                }
                return Err(LaunchFailure::Argument { runtime_dirs, error });
            },
        };
        let args = launch_args(&setting.app_metadata, translated.args.as_slice());
        let command = launch_command(
            self.uid,
            self.gid,
            self.supplementary_gids.as_slice(),
            &self.mounts.root,
            environment.as_slice(),
            entry,
            args.as_slice(),
        );
        assert forall|i: int| !#[trigger] self.refuses_arg(*app, *setting, i) by {
            if self.refuses_arg(*app, *setting, i) {
                assert(texts(app.args@).len() == app.args@.len());
                let arg = texts(app.args@)[i];
                assert(!(translation(
                    views(self.host_filesystem.grants@),
                    arg,
                    path_text(setting.around.home),
                    path_text(setting.around.current_dir),
                ) is Refused));
            }
        }
        Ok(LaunchPlan { environment, runtime_dirs, command, unseen: translated.unseen })
    }
}

/// What is done next when a sandbox is taken down.
#[derive(Debug, Clone, Copy, PartialEq, Eq, Structural)]
pub enum CleanupStage {
    EndProcesses,
    ClosePortal,
    /// Takes down the mount at a place in the order.
    Unmount(usize),
    /// Removes the directories for graphics, which are shown in the sandbox.
    RemoveGraphics,
    CloseAudio,
    RemoveRoot,
    RemoveRecord,
    RemoveRetired,
    Done,
    /// Something failed; what is left is kept for another attempt.
    Failed,
    /// Nothing remains mounted, but what is left could not be removed.
    RemovalFailed,
}

/// A sandbox that is being taken down.
#[derive(Debug)]
pub struct Cleanup {
    pub stage: CleanupStage,
    /// The mounts in the order in which they are taken down.
    pub order: Vec<OwnedMount>,
    /// The mounts that could not be taken down.
    pub remaining: Vec<OwnedMount>,
    /// Why the mounts are not touched, where they are not.
    pub refused: Option<String>,
    pub errors: Vec<String>,
}

pub ghost struct CleanupView {
    pub stage: CleanupStage,
    pub order: Seq<MountView>,
    pub remaining: Seq<MountView>,
    pub refused: Option<Seq<char>>,
    pub errors: Seq<Seq<char>>,
}

impl View for Cleanup {
    type V = CleanupView;

    open spec fn view(&self) -> CleanupView {
        CleanupView {
            stage: self.stage,
            order: views(self.order@),
            remaining: views(self.remaining@),
            refused: optional_error(self.refused),
            errors: texts(self.errors@),
        }
    }
}

/// What follows the mounts: the directories for graphics are sources of mounts, and stay for as
/// long as one of these does.
pub open spec fn after_mounts(remaining: Seq<MountView>) -> CleanupStage {
    if remaining.len() == 0 {
        CleanupStage::RemoveGraphics
    } else {
        CleanupStage::CloseAudio
    }
}

/// What follows the removal of a mount, or the step before the first.
pub open spec fn mount_stage(order: Seq<MountView>, at: int, remaining: Seq<MountView>) -> CleanupStage {
    if at < order.len() {
        CleanupStage::Unmount(at as usize)
    } else {
        after_mounts(remaining)
    }
}

/// The errors with one more, if there is one.
pub open spec fn with_error(errors: Seq<Seq<char>>, error: Option<Seq<char>>) -> Seq<Seq<char>> {
    match error {
        Some(text) => errors.push(text),
        None => errors,
    }
}

/// What follows when a step has ended, with or without an error.
pub open spec fn cleanup_next(now: CleanupView, error: Option<Seq<char>>) -> CleanupView {
    let errors = with_error(now.errors, error);
    match now.stage {
        CleanupStage::EndProcesses => CleanupView { stage: CleanupStage::ClosePortal, errors, ..now },
        CleanupStage::ClosePortal => CleanupView {
            stage: mount_stage(now.order, 0, now.remaining),
            errors: with_error(errors, now.refused),
            refused: None,
            ..now
        },
        CleanupStage::Unmount(at) => {
            let remaining = if error is Some && at < now.order.len() {
                now.remaining.push(now.order[at as int])
            } else {
                now.remaining
            };
            CleanupView {
                stage: mount_stage(now.order, at + 1, remaining),
                remaining,
                errors,
                ..now
            }
        },
        CleanupStage::RemoveGraphics => CleanupView { stage: CleanupStage::CloseAudio, errors, ..now },
        CleanupStage::CloseAudio => CleanupView {
            stage: if errors.len() == 0 {
                CleanupStage::RemoveRoot
            } else {
                CleanupStage::Failed
            },
            errors,
            ..now
        },
        CleanupStage::RemoveRoot => CleanupView {
            stage: if error is None {
                CleanupStage::RemoveRecord
            } else {
                CleanupStage::RemovalFailed
            },
            errors,
            ..now
        },
        CleanupStage::RemoveRecord => CleanupView {
            stage: if error is None {
                CleanupStage::RemoveRetired
            } else {
                CleanupStage::RemovalFailed
            },
            errors,
            ..now
        },
        CleanupStage::RemoveRetired => CleanupView {
            stage: if error is None {
                CleanupStage::Done
            } else {
                CleanupStage::RemovalFailed
            },
            errors,
            ..now
        },
        CleanupStage::Done => now,
        CleanupStage::Failed => now,
        CleanupStage::RemovalFailed => now,
    }
}

/// Whether a mount is the first that does not lie in the sandbox.
pub open spec fn is_first_foreign(mounts: Seq<MountView>, root: Seq<char>, i: int) -> bool {
    &&& 0 <= i < mounts.len()
    &&& !within(mounts[i].path, root)
    &&& forall|j: int| 0 <= j < i ==> within((#[trigger] mounts[j]).path, root)
}

pub open spec fn optional_error(error: Option<String>) -> Option<Seq<char>> {
    match error {
        Some(text) => Some(text@),
        None => None,
    }
}

/// What is told to the user where something failed.
pub open spec fn failure_text(now: CleanupView) -> Seq<char> {
    if now.stage == CleanupStage::RemovalFailed && now.errors.len() > 0 {
        now.errors.last()
    } else {
        "cleanup failed:\n"@ + join(now.errors, "\n"@)
    }
}

impl Cleanup {
    /// Begins to take a sandbox down. Where a mount does not belong to it none is touched, which is
    /// an error once it is the mounts' turn.
    pub fn start(root: &FsPath, owned: Vec<OwnedMount>) -> (r: Cleanup)
        ensures
            r.stage == CleanupStage::EndProcesses,
            if forall|i: int| 0 <= i < owned@.len() ==> within((#[trigger] owned@[i]).path@, root@) {
                &&& r@.order == sorted(
                    views(owned@),
                    |a: MountView, b: MountView| teardown_le(a, b),
                )
                &&& r@.remaining.len() == 0
                &&& r@.refused is None
            } else {
                &&& r@.order.len() == 0
                &&& r@.remaining == views(owned@)
                &&& exists|i: int| #[trigger]
                    is_first_foreign(views(owned@), root@, i) && r@.refused == Some(
                        "refusing to clean mount outside sandbox root "@ + root@ + ": "@ + views(
                            owned@,
                        )[i].path,
                    )
            },
            r@.errors.len() == 0,
    {
        let copy = copy_mounts(owned.as_slice());
        proof {
            assert(copy@.len() == views(copy@).len());
            assert(owned@.len() == views(owned@).len());
            assert forall|i: int| 0 <= i < owned@.len() implies (#[trigger] copy@[i]).path@
                == owned@[i].path@ by {
                assert(views(copy@)[i] == copy@[i]@);
                assert(views(owned@)[i] == owned@[i]@);
            }
            assert forall|i: int| 0 <= i < owned@.len() implies (#[trigger] owned@[i]).path@
                == copy@[i].path@ by {
                assert(copy@[i].path@ == owned@[i].path@);
            }
        }
        let ghost copied = copy@;
        match owned_mount_teardown_order(root, copy) {
            Ok(order) => Cleanup {
                stage: CleanupStage::EndProcesses,
                order,
                remaining: Vec::new(),
                refused: None,
                errors: Vec::new(),
            },
            Err(foreign) => {
                let refused = foreign.message();
                proof {
                    let i = choose|i: int|
                        0 <= i < copied.len() && (#[trigger] copied[i]).path@ == foreign.path@
                            && !within(foreign.path@, root@) && forall|j: int|
                            0 <= j < i ==> within((#[trigger] copied[j]).path@, root@);
                    assert(copied[i].path@ == foreign.path@);
                    assert forall|j: int| 0 <= j < i implies within(
                        (#[trigger] views(owned@)[j]).path,
                        root@,
                    ) by {
                        assert(within(copied[j].path@, root@));
                        assert(copied[j].path@ == owned@[j].path@);
                    }
                    assert(is_first_foreign(views(owned@), root@, i));
                    assert(refused@ == "refusing to clean mount outside sandbox root "@ + root@
                        + ": "@ + views(owned@)[i].path);
                }
                Cleanup {
                    stage: CleanupStage::EndProcesses,
                    order: Vec::new(),
                    remaining: owned,
                    refused: Some(refused),
                    errors: Vec::new(),
                }
            },
        }
    }

    /// What follows when a step has ended, with or without an error.
    pub fn next(&mut self, error: Option<String>)
        requires
            old(self).order@.len() < usize::MAX,
            old(self).stage matches CleanupStage::Unmount(at) ==> at < old(self).order@.len(),
        ensures
            final(self)@ == cleanup_next(old(self)@, optional_error(error)),
            final(self).stage matches CleanupStage::Unmount(at) ==> at < final(self).order@.len(),
            final(self).order == old(self).order,
    {
        let failed = error.is_some();
        if let CleanupStage::Done = self.stage {
            return;
        }
        if let CleanupStage::Failed = self.stage {
            return;
        }
        if let CleanupStage::RemovalFailed = self.stage {
            return;
        }
        if let Some(text) = error {
            proof {
                lemma_texts_push(self.errors@, text);
            }
            self.errors.push(text);
        }
        assert(texts(self.errors@).len() == self.errors@.len());
        assert(views(self.order@).len() == self.order@.len());
        assert(views(self.remaining@).len() == self.remaining@.len());
        match self.stage {
            CleanupStage::EndProcesses => {
                self.stage = CleanupStage::ClosePortal;
            },
            CleanupStage::ClosePortal => {
                if let Some(text) = self.refused.take() {
                    proof {
                        lemma_texts_push(self.errors@, text);
                    }
                    self.errors.push(text);
                }
                self.stage = self.stage_at(0);
            },
            CleanupStage::Unmount(at) => {
                if failed {
                    let mount = self.order[at].clone();
                    proof {
                        lemma_views_push(self.remaining@, mount);
                    }
                    self.remaining.push(mount);
                }
                self.stage = self.stage_at(at + 1);
            },
            CleanupStage::RemoveGraphics => {
                self.stage = CleanupStage::CloseAudio;
            },
            CleanupStage::CloseAudio => {
                self.stage = if self.errors.len() == 0 {
                    CleanupStage::RemoveRoot
                } else {
                    CleanupStage::Failed
                };
            },
            CleanupStage::RemoveRoot => {
                self.stage = if failed {
                    CleanupStage::RemovalFailed
                } else {
                    CleanupStage::RemoveRecord
                };
            },
            CleanupStage::RemoveRecord => {
                self.stage = if failed {
                    CleanupStage::RemovalFailed
                } else {
                    CleanupStage::RemoveRetired
                };
            },
            CleanupStage::RemoveRetired => {
                self.stage = if failed {
                    CleanupStage::RemovalFailed
                } else {
                    CleanupStage::Done
                };
            },
            CleanupStage::Done | CleanupStage::Failed | CleanupStage::RemovalFailed => {},
        }
    }

    fn stage_at(&self, at: usize) -> (r: CleanupStage)
        ensures
            r == mount_stage(views(self.order@), at as int, views(self.remaining@)),
            r matches CleanupStage::Unmount(i) ==> i < self.order@.len(),
    {
        assert(views(self.order@).len() == self.order@.len());
        assert(views(self.remaining@).len() == self.remaining@.len());
        if at < self.order.len() {
            CleanupStage::Unmount(at)
        } else if self.remaining.len() == 0 {
            CleanupStage::RemoveGraphics
        } else {
            CleanupStage::CloseAudio
        }
    }

    /// What is told to the user where something failed: all errors together, or the one that kept
    /// something from being removed.
    pub fn failure(&self) -> (r: String)
        ensures
            r@ == failure_text(self@),
    {
        assert(texts(self.errors@).len() == self.errors@.len());
        if let CleanupStage::RemovalFailed = self.stage {
            if self.errors.len() > 0 {
                return self.errors[self.errors.len() - 1].clone();
            }
        }
        let all = crate::text::join_texts(self.errors.as_slice(), "\n");
        crate::text::concat("cleanup failed:\n", &all)
    }
}

fn copy_mounts(mounts: &[OwnedMount]) -> (r: Vec<OwnedMount>)
    ensures
        views(r@) == views(mounts@),
{
    let ghost all = views(mounts@);
    let mut out: Vec<OwnedMount> = Vec::new();
    let mut i: usize = 0;
    assert(views(out@) =~= all.take(0));
    while i < mounts.len()
        invariant
            i <= mounts@.len(),
            all == views(mounts@),
            views(out@) == all.take(i as int),
        decreases mounts@.len() - i,
    {
        let mount = mounts[i].clone();
        proof {
            lemma_views_push(out@, mount);
            assert(all.take(i as int).push(mount@) =~= all.take(i + 1));
        }
        out.push(mount);
        i += 1;
    }
    assert(all.take(i as int) =~= all);
    out
}

/// The mounts of a sandbox that a nested one gets as well: all but those that were granted to the
/// application alone.
pub open spec fn shared_mounts(mounts: Seq<MountView>, excluded: Seq<Seq<char>>) -> Seq<MountView> {
    selected(mounts, |mount: MountView| !names(excluded, mount.path))
}

/// The mounts of a sandbox that a nested one gets as well.
pub fn nested_mount_plan(mounts: &[OwnedMount], excluded: &[FsPath]) -> (r: Vec<OwnedMount>)
    ensures
        views(r@) == shared_mounts(views(mounts@), path_texts(excluded@)),
{
    let ghost all = views(mounts@);
    let ghost kept_back = path_texts(excluded@);
    let ghost keep = |mount: MountView| !names(kept_back, mount.path);
    let mut out: Vec<OwnedMount> = Vec::new();
    let mut i: usize = 0;
    assert(views(out@) =~= selected(all.take(0), keep));
    while i < mounts.len()
        invariant
            i <= mounts@.len(),
            all == views(mounts@),
            kept_back == path_texts(excluded@),
            keep == (|mount: MountView| !names(kept_back, mount.path)),
            views(out@) == selected(all.take(i as int), keep),
        decreases mounts@.len() - i,
    {
        let ghost next = all.take(i + 1);
        assert(next.drop_last() =~= all.take(i as int));
        assert(next.last() == mounts@[i as int]@);
        if !is_named(excluded, &mounts[i].path) {
            let mount = mounts[i].clone();
            proof {
                lemma_views_push(out@, mount);
            }
            out.push(mount);
        }
        i += 1;
    }
    assert(all.take(i as int) =~= all);
    out
}

/// A nested sandbox gets a mount of its parent if and only if it was not granted to the
/// application alone.
pub proof fn lemma_nested_mounts(
    mounts: Seq<MountView>,
    excluded: Seq<Seq<char>>,
    mount: MountView,
)
    ensures
        shared_mounts(mounts, excluded).contains(mount) <==> mounts.contains(mount) && !names(
            excluded,
            mount.path,
        ),
{
    lemma_selected(mounts, |mount: MountView| !names(excluded, mount.path));
}

/// Where the taking down stands after the steps have ended as told.
pub open spec fn cleanup_after(start: CleanupView, ends: Seq<Option<Seq<char>>>) -> CleanupView
    decreases ends.len(),
{
    if ends.len() == 0 {
        start
    } else {
        cleanup_next(cleanup_after(start, ends.drop_last()), ends.last())
    }
}

/// Whether a stage comes after everything that may fail without stopping the rest.
pub open spec fn removes(stage: CleanupStage) -> bool {
    stage == CleanupStage::RemoveRoot || stage == CleanupStage::RemoveRecord || stage
        == CleanupStage::RemoveRetired || stage == CleanupStage::Done
}

/// The root and the record of a sandbox are removed only where nothing failed and nothing remains
/// mounted, and the directories for graphics only where nothing remains mounted.
pub proof fn lemma_nothing_removed_under_mounts(start: CleanupView, ends: Seq<Option<Seq<char>>>)
    requires
        start.stage == CleanupStage::EndProcesses,
        start.remaining.len() > 0 ==> start.refused is Some,
    ensures
        removes(cleanup_after(start, ends).stage) ==> cleanup_after(start, ends).errors.len() == 0
            && cleanup_after(start, ends).remaining.len() == 0,
        cleanup_after(start, ends).stage == CleanupStage::RemoveGraphics ==> cleanup_after(
            start,
            ends,
        ).remaining.len() == 0,
        cleanup_after(start, ends).remaining.len() > 0 ==> cleanup_after(start, ends).errors.len()
            > 0 || cleanup_after(start, ends).refused is Some,
        cleanup_after(start, ends).refused is Some ==> cleanup_after(start, ends).stage
            == CleanupStage::EndProcesses || cleanup_after(start, ends).stage
            == CleanupStage::ClosePortal,
        cleanup_after(start, ends).stage == CleanupStage::RemovalFailed ==> cleanup_after(
            start,
            ends,
        ).errors.len() == 1 && cleanup_after(start, ends).remaining.len() == 0,
    decreases ends.len(),
{
    if ends.len() > 0 {
        lemma_nothing_removed_under_mounts(start, ends.drop_last());
    }
}

} // verus!
