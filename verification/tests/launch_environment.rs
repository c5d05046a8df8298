use freebsd_flatpak::application_entrypoint::FlatpakApp;
use freebsd_flatpak::extensions::{
    app_extension_ld_paths, runtime_extension_ld_paths, AppExtension, RuntimeCodecExtension,
};
use freebsd_flatpak::launch_environment::{
    append_env_paths, apply_graphics_preloads, apply_unset_environment, expand_env_value,
    launch_env, merge_env, metadata_env, metadata_runtime_dirs, prepend_env_paths,
    runtime_library_paths, SessionSettings,
};
use freebsd_flatpak::path::FsPath;

fn pair(key: &str, value: &str) -> (String, String) {
    (key.to_string(), value.to_string())
}

fn texts(values: &[&str]) -> Vec<String> {
    values.iter().map(|value| value.to_string()).collect()
}

fn find<'a>(env: &'a [(String, String)], key: &str) -> Option<&'a str> {
    env.iter()
        .find(|(name, _)| name == key)
        .map(|(_, value)| value.as_str())
}

fn app(runtime_ref: &str) -> FlatpakApp {
    FlatpakApp {
        app_id: "org.example.App".into(),
        app_dir: FsPath::new("/app-dir"),
        runtime_ref: runtime_ref.into(),
        runtime_dir: FsPath::new("/runtime"),
        command: "app".into(),
        args: Vec::new(),
    }
}

fn session() -> SessionSettings {
    SessionSettings {
        wayland_display: "wayland-0".into(),
        display: None,
        bus_address: None,
        current_desktop: None,
        session_desktop: None,
        moz_enable_wayland: None,
        trace_linux_compat: None,
    }
}

#[test]
fn app_metadata_environment_expands_existing_sandbox_values() {
    let metadata = "[Environment]\nMESA_SHADER_CACHE_DIR=$XDG_RUNTIME_DIR/app/$FLATPAK_ID/cache/mesa_shader_cache_db\nGTK_PATH=/app/lib/gtkmodules\n";
    let base_env = vec![
        pair("XDG_RUNTIME_DIR", "/run/user/1001"),
        pair("FLATPAK_ID", "org.example.App"),
    ];

    assert_eq!(
        metadata_env("", metadata, &base_env),
        vec![
            pair(
                "MESA_SHADER_CACHE_DIR",
                "/run/user/1001/app/org.example.App/cache/mesa_shader_cache_db"
            ),
            pair("GTK_PATH", "/app/lib/gtkmodules")
        ]
    );
}

#[test]
fn launch_data_dirs_include_projected_host_icon_themes() {
    let env = launch_env(
        &app("org.freedesktop.Platform/x86_64/25.08"),
        &session(),
        1001,
        "user",
        &FsPath::new("/host/data"),
    )
    .unwrap();

    assert_eq!(
        find(&env, "XDG_DATA_DIRS"),
        Some("/app/share:/usr/share:/usr/share/runtime/share:/run/host/share")
    );
    assert_eq!(find(&env, "HOST_XDG_DATA_HOME"), Some("/host/data"));
}

#[test]
fn aarch64_launch_paths_use_the_linux_multiarch_libdir() {
    let app = app("org.freedesktop.Platform/aarch64/25.08");
    let env = launch_env(&app, &session(), 1001, "user", &FsPath::new("/host/data")).unwrap();

    assert_eq!(
        find(&env, "GI_TYPELIB_PATH"),
        Some(
            "/app/lib/girepository-1.0:/usr/lib/aarch64-linux-gnu/girepository-1.0:/usr/lib/girepository-1.0"
        )
    );
    assert_eq!(
        runtime_library_paths(&app.runtime_ref).unwrap(),
        vec!["/usr/lib/aarch64-linux-gnu", "/usr/lib", "/usr/lib64"]
    );
}

#[test]
fn zypak_uses_secure_mimic_strategy() {
    let env = launch_env(
        &app("org.freedesktop.Platform/x86_64/25.08"),
        &session(),
        1001,
        "user",
        &FsPath::new("/host/data"),
    )
    .unwrap();

    assert_eq!(find(&env, "ZYPAK_ZYGOTE_STRATEGY_SPAWN"), Some("false"));
}

#[test]
fn app_metadata_environment_supports_braced_variables() {
    let metadata = "[Environment]\nEXAMPLE=${XDG_RUNTIME_DIR}/app/${FLATPAK_ID}\n";
    let base_env = vec![
        pair("XDG_RUNTIME_DIR", "/run/user/1001"),
        pair("FLATPAK_ID", "org.example.App"),
    ];

    assert_eq!(
        metadata_env("", metadata, &base_env),
        vec![pair("EXAMPLE", "/run/user/1001/app/org.example.App")]
    );
}

#[test]
fn runtime_metadata_environment_is_propagated() {
    let runtime_metadata =
        "[Environment]\nRUNTIME_ONLY=from-runtime\nSECOND_RUNTIME_VALUE=second\n";

    assert_eq!(
        metadata_env(runtime_metadata, "", &[]),
        vec![
            pair("RUNTIME_ONLY", "from-runtime"),
            pair("SECOND_RUNTIME_VALUE", "second")
        ]
    );
}

#[test]
fn app_metadata_environment_overrides_runtime_environment() {
    let runtime_metadata = "[Environment]\nSHARED=runtime\nRUNTIME_ONLY=from-runtime\n";
    let app_metadata = "[Environment]\nSHARED=app\nAPP_ONLY=from-app\n";

    assert_eq!(
        metadata_env(runtime_metadata, app_metadata, &[]),
        vec![
            pair("SHARED", "app"),
            pair("RUNTIME_ONLY", "from-runtime"),
            pair("APP_ONLY", "from-app")
        ]
    );
}

#[test]
fn ordinary_apps_keep_graphics_shims_in_ld_preload() {
    let mut env = Vec::new();

    apply_graphics_preloads(
        &mut env,
        &texts(&["/shim/drm.so", "/shim/wayland.so"]),
        &texts(&["/shim/wayland.so", "/shim/drm.so"]),
    );

    assert_eq!(
        find(&env, "LD_PRELOAD"),
        Some("/shim/drm.so:/shim/wayland.so")
    );
}

#[test]
fn zypak_gets_both_graphics_shims() {
    let mut env = Vec::new();

    apply_graphics_preloads(
        &mut env,
        &texts(&["/shim/drm.so", "/shim/wayland.so"]),
        &texts(&["/shim/wayland.so", "/shim/drm.so"]),
    );

    assert_eq!(
        find(&env, "ZYPAK_LD_PRELOAD"),
        Some("/shim/wayland.so:/shim/drm.so")
    );
}

#[test]
fn zypak_graphics_preloads_preserve_existing_value() {
    let mut env = vec![pair("ZYPAK_LD_PRELOAD", "/app/existing.so")];

    apply_graphics_preloads(
        &mut env,
        &[],
        &texts(&["/shim/wayland.so", "/shim/drm.so"]),
    );

    assert_eq!(
        find(&env, "ZYPAK_LD_PRELOAD"),
        Some("/shim/wayland.so:/shim/drm.so:/app/existing.so")
    );
}

#[test]
fn normal_and_zypak_preload_values_remain_independent() {
    let mut env = vec![
        pair("LD_PRELOAD", "/app/normal.so"),
        pair("ZYPAK_LD_PRELOAD", "/app/zypak.so"),
    ];

    apply_graphics_preloads(
        &mut env,
        &texts(&["/shim/drm.so"]),
        &texts(&["/shim/wayland.so"]),
    );

    assert_eq!(find(&env, "LD_PRELOAD"), Some("/shim/drm.so:/app/normal.so"));
    assert_eq!(
        find(&env, "ZYPAK_LD_PRELOAD"),
        Some("/shim/wayland.so:/app/zypak.so")
    );
}

#[test]
fn metadata_runtime_dirs_are_created_inside_app_runtime_scope() {
    let host_runtime = FsPath::new("/tmp/xdg-runtime");
    let env = vec![
        pair(
            "MESA_SHADER_CACHE_DIR",
            "/run/user/1001/app/org.example.App/cache/mesa_shader_cache_db",
        ),
        pair("OTHER_DIR", "/run/user/1001/other/cache"),
    ];

    assert_eq!(
        metadata_runtime_dirs(&env, &host_runtime, 1001, "org.example.App"),
        vec![host_runtime.join("app/org.example.App/cache/mesa_shader_cache_db")]
    );
}

#[test]
fn runtime_extension_ld_path_is_relative_to_declared_runtime_mount() {
    let extension = RuntimeCodecExtension {
        name: "org.example.Codecs".to_string(),
        ref_name: "runtime/org.example.Codecs/x86_64/branch".to_string(),
        checkout_dir: FsPath::new("/extensions/codecs"),
        runtime_mount_relative: FsPath::new("lib/platform/codecs"),
        ld_library_relative: Some(FsPath::new("lib")),
    };

    assert_eq!(
        runtime_extension_ld_paths(&[extension]),
        vec!["/usr/lib/platform/codecs/lib"]
    );
}

#[test]
fn runtime_extension_ld_path_is_appended_to_existing_app_library_path() {
    let mut env = vec![pair("LD_LIBRARY_PATH", "/app/extensions/lib:/app/lib")];

    append_env_paths(
        &mut env,
        "LD_LIBRARY_PATH",
        &texts(&["/usr/lib/x86_64-linux-gnu/codecs-extra/lib"]),
    );

    assert_eq!(
        env,
        vec![pair(
            "LD_LIBRARY_PATH",
            "/app/extensions/lib:/app/lib:/usr/lib/x86_64-linux-gnu/codecs-extra/lib",
        )]
    );
}

#[test]
fn an_extension_without_libraries_adds_no_path() {
    let extension = |library: Option<FsPath>| AppExtension {
        name: "x".into(),
        ref_name: "runtime/x/x86_64/1".into(),
        checkout_dir: FsPath::new("/extensions/x"),
        app_mount_relative: FsPath::new("ext/x"),
        ld_library_relative: library,
    };
    assert_eq!(
        app_extension_ld_paths(&[extension(None), extension(Some(FsPath::new("lib")))]),
        vec!["/app/ext/x/lib"]
    );
}

#[test]
fn values_are_expanded_up_to_what_is_no_name() {
    let env = vec![pair("A", "1"), pair("A", "2"), pair("B_C", "x")];
    assert_eq!(expand_env_value("$A-${B_C}$", &env), "2-x$");
    assert_eq!(expand_env_value("$NONE/${NONE}", &env), "/");
    assert_eq!(expand_env_value("a${A", &env), "a2");
    assert_eq!(expand_env_value("$$A", &env), "$2");
    assert_eq!(expand_env_value("plain", &env), "plain");
}

#[test]
fn unset_variables_are_taken_out_but_for_negated_names() {
    let mut env = vec![pair("A", "1"), pair("B", "2"), pair("!C", "3")];
    apply_unset_environment(
        &mut env,
        "[Context]\nunset-environment= A ;;!C;\n",
    );
    assert_eq!(env, vec![pair("B", "2"), pair("!C", "3")]);
}

#[test]
fn merging_replaces_the_first_and_adds_the_rest() {
    let mut env = vec![pair("A", "1"), pair("B", "2")];
    merge_env(&mut env, &[pair("B", "3"), pair("C", "4")]);
    assert_eq!(env, vec![pair("A", "1"), pair("B", "3"), pair("C", "4")]);
}

#[test]
fn paths_take_the_place_of_an_empty_value() {
    let mut env = vec![pair("P", "")];
    prepend_env_paths(&mut env, "P", &texts(&["/a", "/b"]));
    assert_eq!(env, vec![pair("P", "/a:/b")]);
    prepend_env_paths(&mut env, "P", &[]);
    assert_eq!(env, vec![pair("P", "/a:/b")]);
}

#[test]
fn session_values_are_handed_on_where_they_are_set() {
    let mut session = session();
    session.display = Some(":0".into());
    session.current_desktop = Some("sway".into());
    session.session_desktop = Some(String::new());
    session.bus_address = Some("unix:path=/run/bus".into());
    let env = launch_env(
        &app("org.freedesktop.Platform/x86_64/25.08"),
        &session,
        7,
        "user",
        &FsPath::new("/host/data"),
    )
    .unwrap();
    assert_eq!(find(&env, "DISPLAY"), Some(":0"));
    assert_eq!(find(&env, "XDG_CURRENT_DESKTOP"), Some("sway"));
    assert_eq!(find(&env, "XDG_SESSION_DESKTOP"), None);
    assert_eq!(
        find(&env, "DBUS_SESSION_BUS_ADDRESS"),
        Some("unix:path=/run/bus")
    );
    assert_eq!(find(&env, "XDG_RUNTIME_DIR"), Some("/run/user/7"));
    assert_eq!(
        find(&env, "LD_LIBRARY_PATH"),
        Some("/app/lib:/app/lib64:/usr/lib/x86_64-linux-gnu:/usr/lib:/usr/lib64")
    );
}

#[test]
fn a_runtime_of_an_unknown_architecture_is_refused() {
    assert!(runtime_library_paths("org.example.Platform/riscv64/1").is_err());
    assert!(runtime_library_paths("org.example.Platform").is_err());
    assert!(launch_env(
        &app("org.example.Platform"),
        &session(),
        1,
        "user",
        &FsPath::new("/d")
    )
    .is_err());
}
