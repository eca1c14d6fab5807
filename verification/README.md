# jira_etl

Extract Jira tickets, de-normalize them into plain text (for ML inference
jobs) and upload the text to S3 or write it to a local directory.

- `src/` is the verified library (Verus): how the producer splits a query
  into batches, the scanning of Jira markup (`{tag}` segments, inline base64
  images), the simplification of a ticket before rendering, the names of the
  stored documents, the counts the consumers report, and the configuration
  defaults and flags.
- `app/` is the program around it: reading the environment, the HTTP calls
  to Jira (reqwest), the pandoc process, rendering (askama), S3 (aws-sdk-s3),
  files and the tokio tasks and channels that connect the stages.
- `tests/` runs the library on concrete values.

Settings (environment, with defaults): `JIRA_ENDPOINT`, `JIRA_JQL`,
`JIRA_TOKEN` (required), `SKIP_PANDOC` (`false`), `DEBUG_DIR` (empty: upload
to S3), `DEST_BUCKET` (`jira-cleaned-for-inference`), `DEST_PREFIX`,
`PRODUCER_WAIT` (`1000` ms), `PRODUCER_BATCH_SIZE` (`15`).
