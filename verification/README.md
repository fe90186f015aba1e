# varuna

Verified core of VARUNA-AUV, an underwater acoustic intelligence platform
(passive sonar DSP, target classification, multi-target tracking).

`src/` is the library, proved with Verus:

- `dataset` – metadata records of the ShipsEar and DeepShip datasets.
- `order` – integer order keys for spectral values and selection of the maximum.
- `framing` – frame counts, frame offsets, integration groups and bin counts of
  the STFT, Welch, LOFARgram and MFCC processors.
- `fingerprint` – constellation peak extraction, fan-out hash pairing, the
  fingerprint store and vote-based matching, with the round-trip law.
- `tracker` – track bookkeeping of the Kalman tracker: nearest-neighbour
  gating, coasting, new identities and pruning, with its laws.
- `cfar` – cells under test and training cells of the CA-CFAR detector.
- `classifier` – class labels, the model input check and the classification
  decision (submarine alert).
- `wav` – full-scale value of integer PCM samples.
- `clock` – timestamps of the status report.

`app/` is the server program: the floating-point signal processing (FFT,
filters, Kalman filter arithmetic, MVDR beamforming, ONNX inference), WAV file
I/O and the HTTP/WebSocket server, calling into the library for the decisions
above. `tests/` exercises the library.
