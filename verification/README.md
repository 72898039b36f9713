# llama-monitor

Terminal UI for monitoring a llama.cpp router server: the models it knows,
which are loaded, each slot's state (idle, prefill, generate), the tokens
it decoded and its throughput, with a rolling throughput sparkline per model.

The library under `src/` is written in Verus and verified: what one refresh
fetches and in which order, the per-slot history (prefill detection,
throughput samples in a bounded window), the monitor's state and queries,
the display's text rules, the command line and the event loop's decisions.

`app/` is the program around it: HTTP requests (reqwest, tokio), JSON
reading (serde), the terminal (crossterm, ratatui), and the floating-point
throughput arithmetic and formatting.

Usage: `llama-monitor [--url <URL>] [--key <KEY>] [-i|--interval <SECS>] [INTERVAL_SECS]`;
the refresh interval is 1 s by default, and a later interval wins. The
environment variables `LLM_DEFAULT_URL` and `LLM_DEFAULT_KEY` apply when the
options are absent. Keys: `r` refresh, `↑`/`↓` scroll, `q`/`Esc` quit.
