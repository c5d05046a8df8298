//! Sandbox planning and launch logic for running Flatpak applications on FreeBSD.

pub mod text;
pub mod text_laws;
pub mod path;
pub mod path_laws;
pub mod order;
pub mod order_laws;
pub mod sorted_map;
pub mod flatpak_metadata;
pub mod metadata_laws;
pub mod static_overrides;
pub mod override_laws;
pub mod list_override_laws;
pub mod file_argument_translation;
pub mod filesystem_permissions;
pub mod xdg_user_dirs;
pub mod filesystem_grants;
pub mod grant_builder;
pub mod grant_laws;
pub mod permission_laws;
pub mod host_filesystem;
pub mod argument_laws;
pub mod app_data_mount_plan;
pub mod plan_laws;
pub mod flatpak_data_mount_plan;
pub mod numbers;
pub mod number_laws;
pub mod hexadecimal;
pub mod bytes;
pub mod launch_request;
pub mod secure_launch;
pub mod supervisor_laws;
pub mod launch_laws;
pub mod nested_launch;
pub mod wire_laws;
pub mod spawn_protocol;
pub mod request_laws;
pub mod process_signals;
pub mod mount_operations;
pub mod spawn_broker;
pub mod nested_laws;
pub mod spawn_laws;
pub mod broker_connection;
pub mod service_laws;
pub mod secure_mount;
pub mod mount_helper_laws;
pub mod mount_commands;
pub mod mount_policy;
pub mod process_supervision;
pub mod recovery_order;
pub mod architecture;
pub mod application_entrypoint;
pub mod extensions;
pub mod launch_environment;
pub mod environment_laws;
pub mod sandbox_identity;
pub mod sandbox_root;
pub mod sandbox_root_laws;
pub mod layout_laws;
pub mod flatpak_compatibility;
pub mod stale_sandbox_recovery;
pub mod unmounting;
pub mod supervision_laws;
pub mod recovery_laws;
pub mod sandbox_recovery_laws;
pub mod mount_planner;
pub mod mount_laws;
pub mod extension_merge;
pub mod extension_laws;
pub mod installation;
pub mod state;
pub mod record_laws;
pub mod run_records;
pub mod naming_laws;
pub mod deployments;
pub mod deployment_laws;
pub mod retired_deployments;
pub mod retirement_laws;
pub mod state_laws;
pub mod flatpak_installation;
pub mod entry_laws;
pub mod apply_extra;
pub mod extra_data_laws;
pub mod chroot_backend;
pub mod setup_laws;
pub mod chroot_instance;
pub mod instance_laws;
pub mod mount_target;
pub mod identity_laws;
pub mod nested_client;
