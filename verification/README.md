# scenesdetect

Scene and shot boundary detection over decoded video frames, written in Verus. The
library does no I/O: a caller hands frames in one by one and gets cuts, keyframes and
scenes back. What every function returns is stated in its contract and proved.

## Layout

| Path | What it holds |
|---|---|
| `src/frame.rs`, `src/frame/` | Frame views with validated dimensions; color conversion |
| `src/time.rs` | Timestamps, timebases, ranges and durations |
| `src/number.rs` | Real numbers as bit patterns, and their order |
| `src/arch.rs` | Pixel kernels: conversion, gradients, sums, counts |
| `src/edges.rs`, `src/dilate.rs` | Canny edges and dilation |
| `src/content.rs` | The content detector and its flash filter |
| `src/adaptive.rs` | The adaptive detector, a rolling window over content scores |
| `src/histogram.rs` | The histogram detector |
| `src/cascade/` | All lanes on one timeline: contention, spacing, scenes, keyframes |
| `src/grid.rs`, `src/sum.rs`, `src/text.rs` | Planes, sums over planes, message texts |
| `tests/` | Tests on concrete values |
| `app/` | Floating-point scores, configuration files, error values, clock types |

## Numbers

The library counts: sums, moments, covariances, all exact integers. The division or the
square root that turns them into a score is handed in by the caller, and `app/score.rs`
holds those functions. Scores come back as `Real`, the bit pattern of a double, and the
library compares them as doubles are compared.

## Time

Instants are ticks of a rational timebase. Comparisons and differences across timebases
go through the `mediatime` crate, behind five private functions in `src/time.rs` whose
contracts say what that crate computes.

## What is proved of whole streams

Each detector comes with laws next to its code. For the cascade they stand in
`src/cascade/`:

- `laws.rs`: contention, spacing and the queue.
- `stream.rs`: the scenes of a stream tile it. This rests on fade and perceptual-hash
  lanes that report nothing later than the frame.
- `order.rs`: outputs never tell of the future, and a forced split tells how long its
  scene is, for lanes that also report in the timebase of the frame, and a keyframe
  selection that picks the keyframes of a window out of it; each keyframe then lies in one
  scene. Where the selection takes every frame, or picks nothing from before the open
  shot, the scene that holds a keyframe comes behind it. Where it goes on from what it
  picked before, keyframes rise.
- `restart.rs`: a cascade that was cleared, or has ended a stream, does with every frame
  what a new one does. The first frame of a stream tells the fade and perceptual-hash
  lanes to clear; the keyframe selection is the caller's to clear.
