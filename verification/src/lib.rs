//! Core logic of an audio-first game engine: navigation graphs and their
//! best-first searches, an ordered and optionally bounded event bus, a
//! sample ring buffer, planar and interleaved audio layouts, world-loading
//! bookkeeping, player-control decisions, and the engine's plain types.
pub mod audio_world;
pub mod components;
pub mod control;
pub mod event_bus;
pub mod graph;
pub mod navmesh;
pub mod pathfinding;
pub mod planar;
pub mod rendering;
pub mod ringbuffer;
pub mod world;
