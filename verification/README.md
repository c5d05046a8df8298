# freebsd_flatpak

The logic of running Flatpak applications on FreeBSD, as a verified library: which parts of the
host an application may see, what its sandbox is made of and in which order, how programs are
started in it, and how it is taken down again, also after a crash.

`src/` is the library. Every function states what it returns, and Verus proves it. The functions
do no I/O: they take what is known of the host as plain values and return what is to be done.
Where questions and decisions alternate, they are a function from a state and an answer to the
next state. Laws that span several functions are public proof functions.

- Texts, paths, bytes, numbers, orders: `text`, `path`, `order`, `bytes`, `numbers`,
  `hexadecimal`, `sorted_map`
- Metadata and what users change in it: `flatpak_metadata`, `static_overrides`, `override_laws`,
  `flatpak_compatibility`, `architecture`
- What an application is granted: `filesystem_permissions`, `xdg_user_dirs`, `filesystem_grants`,
  `grant_builder`, `host_filesystem`, `file_argument_translation`, `app_data_mount_plan`,
  `flatpak_data_mount_plan`
- Making a sandbox: `sandbox_identity`, `sandbox_root`, `extensions`, `extension_merge`,
  `mount_operations`, `mount_planner`, `flatpak_installation`, `chroot_backend`
- Starting programs: `application_entrypoint`, `launch_environment`, `chroot_instance`,
  `apply_extra`, `launch_request`, `secure_launch`, `nested_launch`, `nested_client`,
  `spawn_protocol`, `spawn_broker`, `broker_connection`, `process_signals`, `process_supervision`
- Mounts made by the privileged helper: `secure_mount`, `mount_commands`, `mount_policy`,
  `mount_target`
- Taking sandboxes down: `stale_sandbox_recovery`, `recovery_order`, `unmounting`,
  `recovery_laws`
- What is installed and what runs: `installation`, `state`, `run_records`, `deployments`,
  `retired_deployments`, `state_laws`

`app/` is the ordinary Rust around it: files, processes, mounts and sockets.
