# voxtype

Sliding-window streaming transcription. A rolling buffer of the recording is transcribed as a
whole at every tick; the library decides which words of each transcript are new and stable, and
gives them out as deltas to type at the cursor.

- `src/text.rs`: white space, words, joining, trimming, letter case
- `src/diff.rs`: what a transcript adds to the text before it
- `src/filter.rs`: phrases that speech models make up when fed silence
- `src/session.rs`: the state of one recording, and what a tick or the last pass commits
- `src/stream.rs`: what a stream does with each thing that happens to it
- `src/openvino.rs`: configuration of the OpenVINO engine
- `src/laws/`: what holds of all of it, proved
- `app/`: the parts that wait, run a speech model, measure energy and read configuration files

The library is generic over the type of a sample and over the backend's error, and performs no
I/O: it is told what happened, and answers with what is to be done.
