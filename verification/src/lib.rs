pub mod agent_rpc;
pub mod agents;
pub mod broker;
pub mod buffer;
pub mod builtins;
pub mod bytes;
pub mod caret;
pub mod case;
pub mod commands;
pub mod config;
pub mod daemon;
pub mod dashboard;
pub mod discovery;
pub mod features;
pub mod fixed;
pub mod frame;
pub mod git;
pub mod guest;
pub mod history;
pub mod host;
pub mod input;
pub mod json;
pub mod latency;
pub mod lists;
pub mod loading;
pub mod lsp;
pub mod manifest;
pub mod messages;
pub mod number;
pub mod opening;
pub mod order;
pub mod overlay;
pub mod pages;
pub mod palette;
pub mod panel;
pub mod panes;
pub mod paths;
pub mod pickers;
pub mod pointer;
pub mod popout;
pub mod proto;
pub mod remote;
pub mod renderer;
pub mod search;
pub mod settings;
pub mod signals;
pub mod single;
pub mod strip;
pub mod syntax;
pub mod table;
pub mod tabs;
pub mod terminal;
pub mod text;
pub mod update;
pub mod words;
